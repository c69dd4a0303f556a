//! Character classes of the DID grammar, the scanners that delimit the
//! components of a DID URL, and splitting of text on a separator.
use vstd::prelude::*;

verus! {

/// `ALPHA / DIGIT`
pub open spec fn is_alnum(c: char) -> bool {
    ('a' <= c && c <= 'z') || ('A' <= c && c <= 'Z') || ('0' <= c && c <= '9')
}

/// `method-char = %x61-7A / DIGIT`
pub open spec fn is_method_char(c: char) -> bool {
    ('a' <= c && c <= 'z') || ('0' <= c && c <= '9')
}

/// `idchar = ALPHA / DIGIT / "." / "-" / "_"`
pub open spec fn is_id_char(c: char) -> bool {
    is_alnum(c) || c == '.' || c == '-' || c == '_'
}

/// `param-char = ALPHA / DIGIT / "." / "-" / "_" / ":"` (escapes aside)
pub open spec fn is_param_char(c: char) -> bool {
    is_id_char(c) || c == ':'
}

/// `pchar` of RFC 3986, escapes aside: unreserved, sub-delims, `:` and `@`.
pub open spec fn is_pchar(c: char) -> bool {
    is_alnum(c) || c == '-' || c == '.' || c == '_' || c == '~' || c == ':' || c == '@'
        || c == '!' || c == '$' || c == '&' || c == '\'' || c == '(' || c == ')' || c == '*'
        || c == '+' || c == ',' || c == ';' || c == '='
}

pub open spec fn is_hex_digit(c: char) -> bool {
    ('0' <= c && c <= '9') || ('a' <= c && c <= 'f') || ('A' <= c && c <= 'F')
}

/// The classes of text that admit percent-encoded escapes.
#[derive(Clone, Copy, Debug, PartialEq, Eq)]
pub enum CharClass {
    /// names and values of parameters
    Param,
    /// a path: `/` and pchar
    Path,
    /// a query or a fragment: `/`, `?` and pchar
    Query,
}

pub open spec fn in_class(cls: CharClass, c: char) -> bool {
    match cls {
        CharClass::Param => is_param_char(c),
        CharClass::Path => is_pchar(c) || c == '/',
        CharClass::Query => is_pchar(c) || c == '/' || c == '?',
    }
}

/// `s[i..end]` is a sequence of characters of `cls` and escapes `%` HEXDIG HEXDIG.
pub open spec fn units_in(cls: CharClass, s: Seq<char>, i: int, end: int) -> bool
    decreases end - i,
{
    if i >= end {
        true
    } else if s[i] == '%' {
        i + 2 < end && is_hex_digit(s[i + 1]) && is_hex_digit(s[i + 2]) && units_in(
            cls,
            s,
            i + 3,
            end,
        )
    } else {
        in_class(cls, s[i]) && units_in(cls, s, i + 1, end)
    }
}

/// The whole of `s` is made of characters of `cls` and escapes.
pub open spec fn units(cls: CharClass, s: Seq<char>) -> bool {
    units_in(cls, s, 0, s.len() as int)
}

/// The parts of a DID URL, each delimited by where the one before it stops.
#[derive(Clone, Copy, Debug, PartialEq, Eq)]
pub enum Region {
    Method,
    Ids,
    Params,
    Path,
    Query,
    /// the name of a parameter, which stops at `=`
    Name,
}

/// The characters that may continue a region.
pub open spec fn keeps(r: Region, c: char) -> bool {
    match r {
        Region::Method => is_method_char(c),
        Region::Ids => is_id_char(c) || c == ':',
        Region::Params => c != '/' && c != '?' && c != '#',
        Region::Path => c != '?' && c != '#',
        Region::Query => c != '#',
        Region::Name => c != '=',
    }
}

/// The first index at or after `i` whose character does not continue region `r`
/// (or the length of `s`).
pub open spec fn scan(s: Seq<char>, i: int, r: Region) -> int
    decreases s.len() - i,
{
    if i < 0 || i >= s.len() {
        i
    } else if keeps(r, s[i]) {
        scan(s, i + 1, r)
    } else {
        i
    }
}

/// `t` cut at every `sep`; the result always has at least one piece.
pub open spec fn split(t: Seq<char>, sep: char) -> Seq<Seq<char>>
    decreases t.len(),
{
    if t.len() == 0 {
        seq![Seq::<char>::empty()]
    } else {
        let rest = split(t.drop_last(), sep);
        if t.last() == sep {
            rest.push(Seq::<char>::empty())
        } else {
            rest.update(rest.len() - 1, rest.last().push(t.last()))
        }
    }
}

/// The pieces joined with `sep` between them.
pub open spec fn join(ps: Seq<Seq<char>>, sep: char) -> Seq<char>
    decreases ps.len(),
{
    if ps.len() == 0 {
        Seq::<char>::empty()
    } else if ps.len() == 1 {
        ps[0]
    } else {
        join(ps.drop_last(), sep) + seq![sep] + ps.last()
    }
}

pub open spec fn views(v: Seq<String>) -> Seq<Seq<char>> {
    v.map_values(|x: String| x@)
}

pub open spec fn opt_view(o: Option<String>) -> Option<Seq<char>> {
    match o {
        Some(s) => Some(s@),
        None => None,
    }
}

pub proof fn lemma_scan_bounds(s: Seq<char>, i: int, r: Region)
    requires
        0 <= i <= s.len(),
    ensures
        i <= scan(s, i, r) <= s.len(),
        forall|k: int| i <= k < scan(s, i, r) ==> keeps(r, #[trigger] s[k]),
        scan(s, i, r) < s.len() ==> !keeps(r, s[scan(s, i, r)]),
    decreases s.len() - i,
{
    if i < s.len() && keeps(r, s[i]) {
        lemma_scan_bounds(s, i + 1, r);
    }
}

/// A scan is decided by the characters it reads: a run of kept characters
/// followed by one that is not kept, or by the end.
pub proof fn lemma_scan_stops(s: Seq<char>, i: int, j: int, r: Region)
    requires
        0 <= i <= j <= s.len(),
        forall|k: int| i <= k < j ==> keeps(r, #[trigger] s[k]),
        j == s.len() || !keeps(r, s[j]),
    ensures
        scan(s, i, r) == j,
    decreases j - i,
{
    if i < j {
        lemma_scan_stops(s, i + 1, j, r);
    }
}

pub proof fn lemma_units_shift(cls: CharClass, s: Seq<char>, a: int, i: int, end: int)
    requires
        0 <= a <= i <= end <= s.len(),
    ensures
        units_in(cls, s, i, end) == units_in(cls, s.subrange(a, end), i - a, end - a),
    decreases end - i,
{
    if i < end {
        if s[i] == '%' {
            if i + 2 < end {
                lemma_units_shift(cls, s, a, i + 3, end);
            }
        } else {
            lemma_units_shift(cls, s, a, i + 1, end);
        }
    }
}

pub proof fn lemma_units_concat(cls: CharClass, a: Seq<char>, b: Seq<char>, i: int)
    requires
        0 <= i <= a.len(),
        units_in(cls, a, i, a.len() as int),
        units(cls, b),
    ensures
        units_in(cls, a + b, i, (a + b).len() as int),
    decreases a.len() - i,
{
    let s = a + b;
    if i == a.len() {
        lemma_units_shift(cls, s, a.len() as int, i, s.len() as int);
        assert(s.subrange(a.len() as int, s.len() as int) =~= b);
    } else if a[i] == '%' {
        lemma_units_concat(cls, a, b, i + 3);
    } else {
        lemma_units_concat(cls, a, b, i + 1);
    }
}

/// Characters that a well-formed run of units may hold.
pub proof fn lemma_units_chars(cls: CharClass, s: Seq<char>, i: int, end: int)
    requires
        0 <= i <= end <= s.len(),
        units_in(cls, s, i, end),
    ensures
        forall|k: int|
            i <= k < end ==> (in_class(cls, #[trigger] s[k]) || s[k] == '%' || is_hex_digit(s[k])),
    decreases end - i,
{
    if i < end {
        if s[i] == '%' {
            lemma_units_chars(cls, s, i + 3, end);
        } else {
            lemma_units_chars(cls, s, i + 1, end);
        }
    }
}

pub proof fn lemma_split_len(t: Seq<char>, sep: char)
    ensures
        split(t, sep).len() >= 1,
    decreases t.len(),
{
    if t.len() > 0 {
        lemma_split_len(t.drop_last(), sep);
    }
}

/// Text without a separator is a single piece.
pub proof fn lemma_split_single(b: Seq<char>, sep: char)
    requires
        !b.contains(sep),
    ensures
        split(b, sep) == seq![b],
    decreases b.len(),
{
    if b.len() == 0 {
        assert(b =~= Seq::<char>::empty());
    } else {
        let c = b.drop_last();
        assert(!c.contains(sep)) by {
            if c.contains(sep) {
                let k = choose|k: int| 0 <= k < c.len() && c[k] == sep;
                assert(b[k] == sep);
            }
        }
        lemma_split_single(c, sep);
        assert(b.last() != sep) by {
            assert(b[b.len() - 1] == b.last());
        }
        assert(c.push(b.last()) =~= b);
        assert(seq![c].update(0, c.push(b.last())) =~= seq![b]);
        assert(split(b, sep) == split(c, sep).update(0, c.push(b.last())));
    }
}

/// Appending a separator and a piece without one adds that piece.
pub proof fn lemma_split_append(t: Seq<char>, b: Seq<char>, sep: char)
    requires
        !b.contains(sep),
    ensures
        split(t + seq![sep] + b, sep) == split(t, sep).push(b),
    decreases b.len(),
{
    let u = t + seq![sep] + b;
    if b.len() == 0 {
        assert(u.drop_last() =~= t);
        assert(u.last() == sep);
        assert(b =~= Seq::<char>::empty());
    } else {
        let c = b.drop_last();
        assert(!c.contains(sep)) by {
            if c.contains(sep) {
                let k = choose|k: int| 0 <= k < c.len() && c[k] == sep;
                assert(b[k] == sep);
            }
        }
        lemma_split_append(t, c, sep);
        assert(u.drop_last() =~= t + seq![sep] + c);
        assert(u.last() == b.last());
        assert(b.last() != sep) by {
            assert(b[b.len() - 1] == b.last());
        }
        let rest = split(t, sep).push(c);
        assert(c.push(b.last()) =~= b);
        assert(rest.update(rest.len() - 1, rest.last().push(u.last())) =~= split(t, sep).push(b));
        assert(split(u, sep) == rest.update(rest.len() - 1, rest.last().push(u.last())));
    }
}

/// Splitting undoes joining, for at least one piece and pieces without the separator.
pub proof fn lemma_split_join(ps: Seq<Seq<char>>, sep: char)
    requires
        ps.len() >= 1,
        forall|k: int| 0 <= k < ps.len() ==> !(#[trigger] ps[k]).contains(sep),
    ensures
        split(join(ps, sep), sep) == ps,
    decreases ps.len(),
{
    if ps.len() == 1 {
        lemma_split_single(ps[0], sep);
        assert(seq![ps[0]] =~= ps);
    } else {
        let init = ps.drop_last();
        assert(forall|k: int| 0 <= k < init.len() ==> init[k] == ps[k]);
        lemma_split_join(init, sep);
        assert(!ps.last().contains(sep)) by {
            assert(ps[ps.len() - 1] == ps.last());
        }
        lemma_split_append(join(init, sep), ps.last(), sep);
        assert(init.push(ps.last()) =~= ps);
    }
}

/// Every character of every piece is a character of the text other than the separator.
pub proof fn lemma_split_chars(t: Seq<char>, sep: char)
    ensures
        forall|k: int, i: int|
            0 <= k < split(t, sep).len() && 0 <= i < split(t, sep)[k].len() ==> {
                let c = #[trigger] split(t, sep)[k][i];
                c != sep && t.contains(c)
            },
    decreases t.len(),
{
    if t.len() > 0 {
        let init = t.drop_last();
        lemma_split_chars(init, sep);
        lemma_split_len(init, sep);
        let rest = split(init, sep);
        assert forall|c: char| init.contains(c) implies t.contains(c) by {
            let j = choose|j: int| 0 <= j < init.len() && init[j] == c;
            assert(t[j] == c);
        }
        assert(t.contains(t.last())) by {
            assert(t[t.len() - 1] == t.last());
        }
        let sp = split(t, sep);
        assert forall|k: int, i: int| 0 <= k < sp.len() && 0 <= i < sp[k].len() implies {
            let c = #[trigger] sp[k][i];
            c != sep && t.contains(c)
        } by {
            if t.last() == sep {
                if k < rest.len() {
                    assert(sp[k] == rest[k]);
                    assert(init.contains(rest[k][i]));
                }
            } else {
                if k < rest.len() - 1 {
                    assert(sp[k] == rest[k]);
                    assert(init.contains(rest[k][i]));
                } else {
                    assert(sp[k] == rest.last().push(t.last()));
                    if i < rest.last().len() {
                        assert(sp[k][i] == rest[rest.len() - 1][i]);
                        assert(init.contains(rest[rest.len() - 1][i]));
                    }
                }
            }
        }
    }
}

/// Relies on `String::push`: the character is added at the end.
#[verifier::external_body]
pub(crate) fn push_char(s: &mut String, c: char)
    ensures
        final(s)@ == old(s)@.push(c),
{
    s.push(c)
}

/// The pieces of `v[from..to]` cut at every `sep`.
pub fn split_range(v: &Vec<char>, from: usize, to: usize, sep: char) -> (ps: Vec<String>)
    requires
        from <= to <= v.len(),
    ensures
        views(ps@) == split(v@.subrange(from as int, to as int), sep),
{
    let mut ps: Vec<String> = Vec::new();
    let mut cur = String::new();
    let ghost mut start: int = from as int;
    let mut i: usize = from;
    proof {
        assert(v@.subrange(from as int, from as int) =~= Seq::<char>::empty());
        assert(views(ps@).push(cur@) =~= seq![Seq::<char>::empty()]);
    }
    while i < to
        invariant
            from <= start <= i <= to <= v.len(),
            cur@ == v@.subrange(start, i as int),
            split(v@.subrange(from as int, i as int), sep) == views(ps@).push(cur@),
        decreases to - i,
    {
        let ghost t = v@.subrange(from as int, i + 1);
        proof {
            assert(t.drop_last() =~= v@.subrange(from as int, i as int));
            assert(t.last() == v@[i as int]);
        }
        let ghost before = views(ps@);
        let ghost old_cur = cur@;
        if v[i] == sep {
            let piece = cur;
            ps.push(piece);
            cur = String::new();
            proof {
                start = i + 1;
                assert(views(ps@) =~= before.push(old_cur));
                assert(v@.subrange(start, i + 1) =~= Seq::<char>::empty());
            }
        } else {
            push_char(&mut cur, v[i]);
            proof {
                assert(cur@ =~= v@.subrange(start, i + 1));
                assert(before.push(old_cur).update(before.len() as int, cur@) =~= before.push(
                    cur@,
                ));
            }
        }
        i = i + 1;
    }
    let ghost before = views(ps@);
    let ghost last = cur@;
    ps.push(cur);
    proof {
        assert(views(ps@) =~= before.push(last));
    }
    ps
}

/// Checks `v[i..end]` against class `cls`.
pub fn check_units(cls: CharClass, v: &Vec<char>, i: usize, end: usize) -> (r: bool)
    requires
        i <= end <= v.len(),
    ensures
        r == units_in(cls, v@, i as int, end as int),
{
    let mut k: usize = i;
    while k < end
        invariant
            i <= k <= end <= v.len(),
            units_in(cls, v@, i as int, end as int) == units_in(cls, v@, k as int, end as int),
        decreases end - k,
    {
        let c = v[k];
        if c == '%' {
            if end - k > 2 && char_is_hex(v[k + 1]) && char_is_hex(v[k + 2]) {
                k = k + 3;
            } else {
                return false;
            }
        } else if char_in_class(cls, c) {
            k = k + 1;
        } else {
            return false;
        }
    }
    true
}

pub fn char_is_hex(c: char) -> (r: bool)
    ensures
        r == is_hex_digit(c),
{
    ('0' <= c && c <= '9') || ('a' <= c && c <= 'f') || ('A' <= c && c <= 'F')
}

pub fn char_is_alnum(c: char) -> (r: bool)
    ensures
        r == is_alnum(c),
{
    ('a' <= c && c <= 'z') || ('A' <= c && c <= 'Z') || ('0' <= c && c <= '9')
}

pub fn char_is_method(c: char) -> (r: bool)
    ensures
        r == is_method_char(c),
{
    ('a' <= c && c <= 'z') || ('0' <= c && c <= '9')
}

pub fn char_is_id(c: char) -> (r: bool)
    ensures
        r == is_id_char(c),
{
    char_is_alnum(c) || c == '.' || c == '-' || c == '_'
}

pub fn char_is_pchar(c: char) -> (r: bool)
    ensures
        r == is_pchar(c),
{
    char_is_alnum(c) || c == '-' || c == '.' || c == '_' || c == '~' || c == ':' || c == '@' || c
        == '!' || c == '$' || c == '&' || c == '\'' || c == '(' || c == ')' || c == '*' || c
        == '+' || c == ',' || c == ';' || c == '='
}

pub fn char_in_class(cls: CharClass, c: char) -> (r: bool)
    ensures
        r == in_class(cls, c),
{
    match cls {
        CharClass::Param => char_is_id(c) || c == ':',
        CharClass::Path => char_is_pchar(c) || c == '/',
        CharClass::Query => char_is_pchar(c) || c == '/' || c == '?',
    }
}

pub fn char_keeps(r: Region, c: char) -> (b: bool)
    ensures
        b == keeps(r, c),
{
    match r {
        Region::Method => char_is_method(c),
        Region::Ids => char_is_id(c) || c == ':',
        Region::Params => c != '/' && c != '?' && c != '#',
        Region::Path => c != '?' && c != '#',
        Region::Query => c != '#',
        Region::Name => c != '=',
    }
}

/// The end of region `r` that starts at `i`.
pub fn scan_exec(v: &Vec<char>, i: usize, r: Region) -> (e: usize)
    requires
        i <= v.len(),
    ensures
        e == scan(v@, i as int, r),
        i <= e <= v.len(),
{
    let mut k: usize = i;
    while k < v.len() && char_keeps(r, v[k])
        invariant
            i <= k <= v.len(),
            scan(v@, i as int, r) == scan(v@, k as int, r),
        decreases v.len() - k,
    {
        k = k + 1;
    }
    proof {
        lemma_scan_bounds(v@, i as int, r);
    }
    k
}

/// The characters of `s`, in order.
pub fn chars_of(s: &str) -> (v: Vec<char>)
    ensures
        v@ == s@,
{
    let mut v: Vec<char> = Vec::new();
    for c in it: s.chars()
        invariant
            v@ == it.seq().subrange(0, it.index() as int),
    {
        v.push(c);
    }
    v
}

} // verus!
