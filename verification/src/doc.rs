//! The document format: a tagged tree written as text. One event is a start
//! tag, an empty (self-closing) tag, an end tag, or a run of text. Parsing
//! turns document bytes into events; rendering writes events back. Parsing a
//! rendered well-formed event sequence gives the sequence back, which is what
//! lets the streaming patch passes re-emit untouched events verbatim.

use vstd::prelude::*;
use crate::bytes::{is_ws, is_name_byte, ws_byte, name_byte};
use crate::values::copy_bytes;

verus! {

/// `<`
pub open spec fn lt_b() -> u8 {
    60
}

/// `>`
pub open spec fn gt_b() -> u8 {
    62
}

/// `/`
pub open spec fn slash_b() -> u8 {
    47
}

/// Spec-level document event.
pub enum EventV {
    /// `<name attrs>`: the attribute bytes are kept raw.
    Start(Seq<u8>, Seq<u8>),
    /// `<name attrs/>`
    Empty(Seq<u8>, Seq<u8>),
    /// `</name>`
    End(Seq<u8>),
    /// A run of text between tags, kept byte-for-byte.
    Text(Seq<u8>),
}

/// A document event.
#[derive(Debug)]
pub enum Event {
    /// `<name attrs>`: the attribute bytes are kept raw.
    Start(Vec<u8>, Vec<u8>),
    /// `<name attrs/>`
    Empty(Vec<u8>, Vec<u8>),
    /// `</name>`
    End(Vec<u8>),
    /// A run of text between tags, kept byte-for-byte.
    Text(Vec<u8>),
}

impl View for Event {
    type V = EventV;

    open spec fn view(&self) -> EventV {
        match self {
            Event::Start(n, a) => EventV::Start(n@, a@),
            Event::Empty(n, a) => EventV::Empty(n@, a@),
            Event::End(n) => EventV::End(n@),
            Event::Text(t) => EventV::Text(t@),
        }
    }
}

impl Clone for Event {
    fn clone(&self) -> (r: Self)
        ensures
            r@ == self@,
    {
        match self {
            Event::Start(n, a) => Event::Start(copy_bytes(n), copy_bytes(a)),
            Event::Empty(n, a) => Event::Empty(copy_bytes(n), copy_bytes(a)),
            Event::End(n) => Event::End(copy_bytes(n)),
            Event::Text(t) => Event::Text(copy_bytes(t)),
        }
    }
}

/// The view of an event list, pairwise.
pub open spec fn events_view(es: Seq<Event>) -> Seq<EventV> {
    Seq::new(es.len(), |i: int| es[i]@)
}

/// The first position at or after `i` holding byte `b`, or the length.
pub open spec fn find_from(s: Seq<u8>, i: int, b: u8) -> int
    decreases s.len() - i,
{
    if i < 0 || i >= s.len() {
        s.len() as int
    } else if s[i] == b {
        i
    } else {
        find_from(s, i + 1, b)
    }
}

/// What `find_from` finds: the first hit, if any.
pub proof fn lemma_find_from(s: Seq<u8>, i: int, b: u8)
    requires
        0 <= i <= s.len(),
    ensures
        i <= find_from(s, i, b) <= s.len(),
        find_from(s, i, b) < s.len() ==> s[find_from(s, i, b)] == b,
        forall|j: int| i <= j < find_from(s, i, b) ==> s[j] != b,
    decreases s.len() - i,
{
    if i < s.len() && s[i] != b {
        lemma_find_from(s, i + 1, b);
    }
}

/// A hit at `p` with no earlier hit pins the find down.
pub proof fn lemma_find_from_hit(s: Seq<u8>, i: int, b: u8, p: int)
    requires
        0 <= i <= p < s.len(),
        s[p] == b,
        forall|j: int| i <= j < p ==> s[j] != b,
    ensures
        find_from(s, i, b) == p,
    decreases p - i,
{
    if i < p {
        lemma_find_from_hit(s, i + 1, b, p);
    }
}

/// No hit at all means the find runs to the end.
pub proof fn lemma_find_from_miss(s: Seq<u8>, i: int, b: u8)
    requires
        0 <= i <= s.len(),
        forall|j: int| i <= j < s.len() ==> s[j] != b,
    ensures
        find_from(s, i, b) == s.len(),
    decreases s.len() - i,
{
    if i < s.len() {
        lemma_find_from_miss(s, i + 1, b);
    }
}

/// The first position at or after `i` holding something besides whitespace,
/// or the length.
pub open spec fn find_non_ws(s: Seq<u8>, i: int) -> int
    decreases s.len() - i,
{
    if i < 0 || i >= s.len() {
        s.len() as int
    } else if is_ws(s[i]) {
        find_non_ws(s, i + 1)
    } else {
        i
    }
}

pub proof fn lemma_find_non_ws(s: Seq<u8>, i: int)
    requires
        0 <= i <= s.len(),
    ensures
        i <= find_non_ws(s, i) <= s.len(),
        find_non_ws(s, i) < s.len() ==> !is_ws(s[find_non_ws(s, i)]),
        forall|j: int| i <= j < find_non_ws(s, i) ==> is_ws(s[j]),
    decreases s.len() - i,
{
    if i < s.len() && is_ws(s[i]) {
        lemma_find_non_ws(s, i + 1);
    }
}

/// The last position before `i` holding something besides whitespace, plus
/// one; zero if there is none.
pub open spec fn rfind_non_ws(s: Seq<u8>, i: int) -> int
    decreases i,
{
    if i <= 0 || i > s.len() {
        0
    } else if is_ws(s[i - 1]) {
        rfind_non_ws(s, i - 1)
    } else {
        i
    }
}

pub proof fn lemma_rfind_non_ws(s: Seq<u8>, i: int)
    requires
        0 <= i <= s.len(),
    ensures
        0 <= rfind_non_ws(s, i) <= i,
        rfind_non_ws(s, i) > 0 ==> !is_ws(s[rfind_non_ws(s, i) - 1]),
        forall|j: int| rfind_non_ws(s, i) <= j < i ==> is_ws(s[j]),
    decreases i,
{
    if 0 < i && is_ws(s[i - 1]) {
        lemma_rfind_non_ws(s, i - 1);
    }
}

/// `s` with surrounding whitespace dropped.
pub open spec fn trim(s: Seq<u8>) -> Seq<u8> {
    let a = find_non_ws(s, 0);
    let b = rfind_non_ws(s, s.len() as int);
    if a < b {
        s.subrange(a, b)
    } else {
        Seq::empty()
    }
}

/// A text with no whitespace at either end is already trimmed.
pub proof fn lemma_trim_id(s: Seq<u8>)
    requires
        s.len() > 0,
        !is_ws(s[0]),
        !is_ws(s.last()),
    ensures
        trim(s) == s,
{
    assert(find_non_ws(s, 0) == 0);
    assert(rfind_non_ws(s, s.len() as int) == s.len());
    assert(s.subrange(0, s.len() as int) =~= s);
}

/// What trimming leaves: either nothing, or a nonempty run with no
/// whitespace at either end, drawn from the original bytes.
pub proof fn lemma_trim(s: Seq<u8>)
    ensures
        trim(s).len() <= s.len(),
        trim(s).len() > 0 ==> !is_ws(trim(s)[0]) && !is_ws(trim(s).last()),
        forall|j: int|
            0 <= j < trim(s).len() ==> exists|k: int| 0 <= k < s.len() && s[k] == #[trigger] trim(
                s,
            )[j],
{
    lemma_find_non_ws(s, 0);
    lemma_rfind_non_ws(s, s.len() as int);
    let a = find_non_ws(s, 0);
    let b = rfind_non_ws(s, s.len() as int);
    if a < b {
        assert forall|j: int| 0 <= j < trim(s).len() implies exists|k: int|
            0 <= k < s.len() && s[k] == #[trigger] trim(s)[j] by {
            assert(s[a + j] == trim(s)[j]);
        }
    }
}

/// The length of the maximal name-byte prefix.
pub open spec fn name_len(s: Seq<u8>) -> int
    decreases s.len(),
{
    if s.len() > 0 && is_name_byte(s[0]) {
        1 + name_len(s.drop_first())
    } else {
        0
    }
}

pub proof fn lemma_name_len(s: Seq<u8>)
    ensures
        0 <= name_len(s) <= s.len(),
        forall|j: int| 0 <= j < name_len(s) ==> is_name_byte(s[j]),
        name_len(s) < s.len() ==> !is_name_byte(s[name_len(s)]),
    decreases s.len(),
{
    if s.len() > 0 && is_name_byte(s[0]) {
        lemma_name_len(s.drop_first());
        assert forall|j: int| 0 <= j < name_len(s) implies is_name_byte(s[j]) by {
            if j > 0 {
                assert(is_name_byte(s.drop_first()[j - 1]));
            }
        }
    }
}

/// A name-byte prefix of the given length with a non-name byte (or nothing)
/// after it pins `name_len` down.
pub proof fn lemma_name_len_is(s: Seq<u8>, n: int)
    requires
        0 <= n <= s.len(),
        forall|j: int| 0 <= j < n ==> is_name_byte(s[j]),
        n < s.len() ==> !is_name_byte(s[n]),
    ensures
        name_len(s) == n,
    decreases n,
{
    if n == 0 {
    } else {
        assert(is_name_byte(s[0]));
        lemma_name_len_is(s.drop_first(), n - 1);
    }
}

/// Attribute bytes that a tag may carry: no angle bracket, and nothing at
/// all or a leading whitespace byte to keep them apart from the name.
pub open spec fn attrs_ok(a: Seq<u8>) -> bool {
    &&& forall|j: int| 0 <= j < a.len() ==> a[j] != lt_b() && a[j] != gt_b()
    &&& (a.len() == 0 || is_ws(a[0]))
}

/// A name fit for a tag.
pub open spec fn wf_tag_name(n: Seq<u8>) -> bool {
    n.len() > 0 && (forall|j: int| 0 <= j < n.len() ==> is_name_byte(#[trigger] n[j]))
}

/// An event the renderer can write so that parsing reads it back.
pub open spec fn wf_event(e: EventV) -> bool {
    match e {
        EventV::Start(n, a) => wf_tag_name(n) && attrs_ok(a) && (a.len() == 0 || a.last()
            != slash_b()),
        EventV::Empty(n, a) => wf_tag_name(n) && attrs_ok(a),
        EventV::End(n) => wf_tag_name(n),
        EventV::Text(t) => t.len() > 0 && (forall|j: int| 0 <= j < t.len() ==> t[j] != lt_b()),
    }
}

/// A sequence of events the renderer can write so that parsing reads it
/// back: each well-formed, and no two texts side by side (they would merge).
pub open spec fn wf_events(es: Seq<EventV>) -> bool {
    &&& forall|i: int| 0 <= i < es.len() ==> wf_event(#[trigger] es[i])
    &&& forall|i: int| 0 < i < es.len() ==> !((#[trigger] es[i]) is Text && es[i - 1] is Text)
}

/// Reads the tag that begins at `i` (a `<`): the event and the position
/// just past the closing `>`.
pub open spec fn parse_tag(s: Seq<u8>, i: int) -> Option<(EventV, int)> {
    if i + 1 >= s.len() {
        None
    } else if s[i + 1] == slash_b() {
        let g = find_from(s, i + 2, gt_b());
        if g >= s.len() {
            None
        } else {
            let name = s.subrange(i + 2, g);
            if wf_tag_name(name) {
                Some((EventV::End(name), g + 1))
            } else {
                None
            }
        }
    } else {
        let g = find_from(s, i + 1, gt_b());
        if g >= s.len() {
            None
        } else {
            let inner = s.subrange(i + 1, g);
            if inner.len() == 0 {
                None
            } else {
                let is_empty_tag = inner.last() == slash_b();
                let body = if is_empty_tag {
                    inner.drop_last()
                } else {
                    inner
                };
                let nl = name_len(body);
                let name = body.subrange(0, nl);
                let attrs = body.subrange(nl, body.len() as int);
                if nl > 0 && attrs_ok(attrs) {
                    if is_empty_tag {
                        Some((EventV::Empty(name, attrs), g + 1))
                    } else {
                        Some((EventV::Start(name, attrs), g + 1))
                    }
                } else {
                    None
                }
            }
        }
    }
}

/// Reads the whole document from `i` on into events. Nothing comes of a
/// malformed document: there is no recovery.
pub open spec fn parse_from(s: Seq<u8>, i: int) -> Option<Seq<EventV>>
    decreases s.len() - i,
    when 0 <= i
{
    if i >= s.len() {
        Some(Seq::empty())
    } else if s[i] == lt_b() {
        match parse_tag(s, i) {
            None => None,
            Some((ev, j)) => if i < j <= s.len() {
                match parse_from(s, j) {
                    None => None,
                    Some(rest) => Some(seq![ev] + rest),
                }
            } else {
                None
            },
        }
    } else {
        let j = find_from(s, i, lt_b());
        if i < j <= s.len() {
            match parse_from(s, j) {
                None => None,
                Some(rest) => Some(seq![EventV::Text(s.subrange(i, j))] + rest),
            }
        } else {
            None
        }
    }
}

/// Reads the whole document into events.
pub open spec fn parse_doc(s: Seq<u8>) -> Option<Seq<EventV>> {
    parse_from(s, 0)
}

/// The bytes one event renders as.
pub open spec fn render_event(e: EventV) -> Seq<u8> {
    match e {
        EventV::Start(n, a) => seq![lt_b()] + n + a + seq![gt_b()],
        EventV::Empty(n, a) => seq![lt_b()] + n + a + seq![slash_b(), gt_b()],
        EventV::End(n) => seq![lt_b(), slash_b()] + n + seq![gt_b()],
        EventV::Text(t) => t,
    }
}

/// The bytes an event sequence renders as.
pub open spec fn render(es: Seq<EventV>) -> Seq<u8>
    decreases es.len(),
{
    if es.len() == 0 {
        Seq::empty()
    } else {
        render_event(es[0]) + render(es.subrange(1, es.len() as int))
    }
}

/// A whitespace run before `p`, with `p` past the end or not whitespace,
/// pins the forward scan down.
pub proof fn lemma_find_non_ws_is(s: Seq<u8>, i: int, p: int)
    requires
        0 <= i <= p <= s.len(),
        forall|j: int| i <= j < p ==> is_ws(s[j]),
        p < s.len() ==> !is_ws(s[p]),
    ensures
        find_non_ws(s, i) == p,
    decreases p - i,
{
    if i < p {
        lemma_find_non_ws_is(s, i + 1, p);
    }
}

/// A whitespace run from `p` on, with `p` at the start or not preceded by
/// whitespace, pins the backward scan down.
pub proof fn lemma_rfind_non_ws_is(s: Seq<u8>, i: int, p: int)
    requires
        0 <= p <= i <= s.len(),
        forall|j: int| p <= j < i ==> is_ws(s[j]),
        p > 0 ==> !is_ws(s[p - 1]),
    ensures
        rfind_non_ws(s, i) == p,
    decreases i - p,
{
    if p < i {
        lemma_rfind_non_ws_is(s, i - 1, p);
    }
}

/// Finds byte `b` at or after `i`.
pub fn find_byte(v: &Vec<u8>, i: usize, b: u8) -> (r: usize)
    requires
        i <= v@.len(),
    ensures
        r == find_from(v@, i as int, b),
        i <= r <= v@.len(),
{
    let mut j = i;
    while j < v.len()
        invariant
            i <= j <= v@.len(),
            find_from(v@, i as int, b) == find_from(v@, j as int, b),
        decreases v@.len() - j,
    {
        if v[j] == b {
            return j;
        }
        j = j + 1;
    }
    j
}

/// Copies the bytes in `[a, b)`.
pub fn copy_range(v: &Vec<u8>, a: usize, b: usize) -> (r: Vec<u8>)
    requires
        a <= b <= v@.len(),
    ensures
        r@ == v@.subrange(a as int, b as int),
{
    let mut r: Vec<u8> = Vec::new();
    let mut i = a;
    while i < b
        invariant
            a <= i <= b <= v@.len(),
            r@ == v@.subrange(a as int, i as int),
        decreases b - i,
    {
        r.push(v[i]);
        i = i + 1;
        assert(r@ =~= v@.subrange(a as int, i as int));
    }
    r
}

/// Copies the bytes in `[a, b)` with surrounding whitespace dropped.
pub fn trim_range(v: &Vec<u8>, a: usize, b: usize) -> (r: Vec<u8>)
    requires
        a <= b <= v@.len(),
    ensures
        r@ == trim(v@.subrange(a as int, b as int)),
{
    let ghost sub = v@.subrange(a as int, b as int);
    let mut x = a;
    while x < b && ws_byte(v[x])
        invariant
            a <= x <= b <= v@.len(),
            forall|j: int| a <= j < x ==> is_ws(v@[j]),
        decreases b - x,
    {
        x = x + 1;
    }
    proof {
        assert(forall|j: int| 0 <= j < sub.len() ==> sub[j] == v@[a + j]);
    }
    if x == b {
        proof {
            lemma_find_non_ws_is(sub, 0, (x - a) as int);
            lemma_rfind_non_ws_is(sub, sub.len() as int, 0);
            assert(trim(sub) =~= Seq::<u8>::empty());
        }
        return Vec::new();
    }
    let mut y = b;
    while ws_byte(v[y - 1])
        invariant
            a <= x < y <= b <= v@.len(),
            !is_ws(v@[x as int]),
            forall|j: int| y <= j < b ==> is_ws(v@[j]),
        decreases y,
    {
        y = y - 1;
    }
    proof {
        lemma_find_non_ws_is(sub, 0, (x - a) as int);
        lemma_rfind_non_ws_is(sub, sub.len() as int, (y - a) as int);
        assert(trim(sub) =~= v@.subrange(x as int, y as int));
    }
    copy_range(v, x, y)
}

/// Whether every byte in `[a, b)` is a name byte.
pub fn name_bytes_range(v: &Vec<u8>, a: usize, b: usize) -> (r: bool)
    requires
        a <= b <= v@.len(),
    ensures
        r == (forall|j: int| a <= j < b ==> is_name_byte(#[trigger] v@[j])),
{
    let mut i = a;
    while i < b
        invariant
            a <= i <= b <= v@.len(),
            forall|j: int| a <= j < i ==> is_name_byte(#[trigger] v@[j]),
        decreases b - i,
    {
        if !name_byte(v[i]) {
            return false;
        }
        i = i + 1;
    }
    true
}

/// The end of the name-byte run that starts at `a`, stopping at `b`.
pub fn scan_name(v: &Vec<u8>, a: usize, b: usize) -> (r: usize)
    requires
        a <= b <= v@.len(),
    ensures
        a <= r <= b,
        r - a == name_len(v@.subrange(a as int, b as int)),
{
    let ghost sub = v@.subrange(a as int, b as int);
    let mut i = a;
    while i < b && name_byte(v[i])
        invariant
            a <= i <= b <= v@.len(),
            forall|j: int| a <= j < i ==> is_name_byte(#[trigger] v@[j]),
        decreases b - i,
    {
        i = i + 1;
    }
    proof {
        assert(forall|j: int| 0 <= j < sub.len() ==> sub[j] == v@[a + j]);
        lemma_name_len_is(sub, i - a);
    }
    i
}

/// Whether `a` holds attribute bytes a tag may carry.
pub fn attrs_ok_exec(v: &Vec<u8>) -> (r: bool)
    ensures
        r == attrs_ok(v@),
{
    if v.len() == 0 {
        return true;
    }
    if !ws_byte(v[0]) {
        return false;
    }
    let mut i: usize = 0;
    while i < v.len()
        invariant
            i <= v@.len(),
            forall|j: int| 0 <= j < i ==> v@[j] != lt_b() && v@[j] != gt_b(),
        decreases v@.len() - i,
    {
        let c = v[i];
        if c == 60 || c == 62 {
            return false;
        }
        i = i + 1;
    }
    true
}

/// Reads the tag that begins at `i`.
pub fn parse_tag_exec(v: &Vec<u8>, i: usize) -> (r: Option<(Event, usize)>)
    requires
        i < v@.len(),
    ensures
        match r {
            Some(p) => parse_tag(v@, i as int) == Some((p.0@, p.1 as int)) && i < p.1 <= v@.len(),
            None => parse_tag(v@, i as int) is None,
        },
{
    if v.len() - i <= 1 {
        return None;
    }
    if v[i + 1] == 47 {
        let g = find_byte(v, i + 2, 62);
        if g >= v.len() {
            return None;
        }
        let name = copy_range(v, i + 2, g);
        if name.len() == 0 || !name_bytes_range(v, i + 2, g) {
            proof {
                assert(forall|j: int| 0 <= j < name@.len() ==> name@[j] == v@[i + 2 + j]);
                if name@.len() > 0 {
                    let j0 = choose|j: int| i + 2 <= j < g && !is_name_byte(#[trigger] v@[j]);
                    assert(name@[j0 - (i + 2)] == v@[j0]);
                    assert(!wf_tag_name(name@));
                }
                assert(parse_tag(v@, i as int) is None);
            }
            return None;
        }
        proof {
            assert(forall|j: int| 0 <= j < name@.len() ==> name@[j] == v@[i + 2 + j]);
            assert(wf_tag_name(name@));
        }
        Some((Event::End(name), g + 1))
    } else {
        let g = find_byte(v, i + 1, 62);
        if g >= v.len() {
            return None;
        }
        let ghost inner = v@.subrange(i as int + 1, g as int);
        if g == i + 1 {
            return None;
        }
        let is_empty_tag = v[g - 1] == 47;
        let body_end: usize = if is_empty_tag {
            g - 1
        } else {
            g
        };
        proof {
            assert(inner.last() == v@[g - 1]);
            if is_empty_tag {
                assert(inner.drop_last() =~= v@.subrange(i as int + 1, g as int - 1));
            }
        }
        let ghost body = v@.subrange(i as int + 1, body_end as int);
        let ne = scan_name(v, i + 1, body_end);
        if ne == i + 1 {
            return None;
        }
        let name = copy_range(v, i + 1, ne);
        let attrs = copy_range(v, i + 1 + (ne - (i + 1)), body_end);
        proof {
            assert(name@ =~= body.subrange(0, name_len(body)));
            assert(attrs@ =~= body.subrange(name_len(body), body.len() as int));
        }
        if !attrs_ok_exec(&attrs) {
            return None;
        }
        if is_empty_tag {
            Some((Event::Empty(name, attrs), g + 1))
        } else {
            Some((Event::Start(name, attrs), g + 1))
        }
    }
}

/// Reads a whole document into events. Nothing comes of a malformed
/// document: there is no recovery.
pub fn tokenize(doc: &Vec<u8>) -> (r: Option<Vec<Event>>)
    ensures
        match r {
            Some(es) => parse_doc(doc@) == Some(events_view(es@)),
            None => parse_doc(doc@) is None,
        },
{
    let mut acc: Vec<Event> = Vec::new();
    let mut i: usize = 0;
    while i < doc.len()
        invariant
            i <= doc@.len(),
            parse_doc(doc@) == (match parse_from(doc@, i as int) {
                Some(rest) => Some(events_view(acc@) + rest),
                None => None::<Seq<EventV>>,
            }),
        decreases doc@.len() - i,
    {
        let ghost acc0 = events_view(acc@);
        if doc[i] == 60 {
            match parse_tag_exec(doc, i) {
                None => {
                    return None;
                },
                Some((ev, j)) => {
                    let ghost evv = ev@;
                    acc.push(ev);
                    proof {
                        assert(events_view(acc@) =~= acc0.push(evv));
                        if parse_from(doc@, j as int) is Some {
                            let rest = parse_from(doc@, j as int)->Some_0;
                            assert(acc0 + (seq![evv] + rest) =~= events_view(acc@) + rest);
                        }
                    }
                    i = j;
                },
            }
        } else {
            let j = find_byte(doc, i, 60);
            proof {
                lemma_find_from(doc@, i as int, 60);
                assert(j > i);
            }
            let t = copy_range(doc, i, j);
            let ghost tv = t@;
            acc.push(Event::Text(t));
            proof {
                assert(events_view(acc@) =~= acc0.push(EventV::Text(tv)));
                if parse_from(doc@, j as int) is Some {
                    let rest = parse_from(doc@, j as int)->Some_0;
                    assert(acc0 + (seq![EventV::Text(tv)] + rest) =~= events_view(acc@) + rest);
                }
            }
            i = j;
        }
    }
    proof {
        assert(parse_from(doc@, i as int) == Some(Seq::<EventV>::empty()));
        assert(events_view(acc@) + Seq::<EventV>::empty() =~= events_view(acc@));
    }
    Some(acc)
}

/// Appends what one event renders as.
pub fn render_one(out: &mut Vec<u8>, e: &Event)
    ensures
        final(out)@ == old(out)@ + render_event(e@),
{
    match e {
        Event::Start(n, a) => {
            out.push(60);
            crate::values::append_bytes(out, n);
            crate::values::append_bytes(out, a);
            out.push(62);
            assert(out@ =~= old(out)@ + render_event(e@));
        },
        Event::Empty(n, a) => {
            out.push(60);
            crate::values::append_bytes(out, n);
            crate::values::append_bytes(out, a);
            out.push(47);
            out.push(62);
            assert(out@ =~= old(out)@ + render_event(e@));
        },
        Event::End(n) => {
            out.push(60);
            out.push(47);
            crate::values::append_bytes(out, n);
            out.push(62);
            assert(out@ =~= old(out)@ + render_event(e@));
        },
        Event::Text(t) => {
            crate::values::append_bytes(out, t);
            assert(out@ =~= old(out)@ + render_event(e@));
        },
    }
}

/// Writes an event sequence back out as document bytes.
pub fn write_events(es: &Vec<Event>) -> (r: Vec<u8>)
    ensures
        r@ == render(events_view(es@)),
{
    let mut out: Vec<u8> = Vec::new();
    let mut i: usize = 0;
    assert(events_view(es@).skip(0) =~= events_view(es@));
    while i < es.len()
        invariant
            i <= es@.len(),
            render(events_view(es@)) == out@ + render(events_view(es@).skip(i as int)),
        decreases es@.len() - i,
    {
        render_one(&mut out, &es[i]);
        proof {
            let tail = events_view(es@).skip(i as int);
            assert(tail[0] == events_view(es@)[i as int]);
            assert(tail.subrange(1, tail.len() as int) =~= events_view(es@).skip(i as int + 1));
        }
        i = i + 1;
    }
    proof {
        assert(events_view(es@).skip(es@.len() as int).len() == 0);
    }
    out
}

/// Finding shifts with the suffix: a find at `i + k` over `s` is the find
/// at `k` over the suffix from `i`, shifted back.
pub proof fn lemma_find_from_shift(s: Seq<u8>, i: int, k: int, b: u8)
    requires
        0 <= i <= s.len(),
        0 <= k,
    ensures
        find_from(s, i + k, b) == i + find_from(s.skip(i), k, b),
    decreases s.len() - i - k,
{
    if i + k >= s.len() {
        assert(find_from(s.skip(i), k, b) == s.skip(i).len());
    } else {
        assert(s.skip(i)[k] == s[i + k]);
        if s[i + k] != b {
            lemma_find_from_shift(s, i, k + 1, b);
        }
    }
}

/// Reading a tag shifts with the suffix.
pub proof fn lemma_parse_tag_shift(s: Seq<u8>, i: int)
    requires
        0 <= i <= s.len(),
    ensures
        parse_tag(s, i) == (match parse_tag(s.skip(i), 0) {
            None => None::<(EventV, int)>,
            Some((e, j)) => Some((e, i + j)),
        }),
{
    let t = s.skip(i);
    assert(forall|x: int| 0 <= x < t.len() ==> t[x] == s[i + x]);
    if i + 1 >= s.len() {
    } else if s[i + 1] == slash_b() {
        lemma_find_from_shift(s, i, 2, gt_b());
        let g = find_from(t, 2, gt_b());
        lemma_find_from(t, 2, gt_b());
        if g < t.len() {
            assert(s.subrange(i + 2, i + g) =~= t.subrange(2, g));
        }
    } else {
        lemma_find_from_shift(s, i, 1, gt_b());
        let g = find_from(t, 1, gt_b());
        lemma_find_from(t, 1, gt_b());
        if g < t.len() {
            assert(s.subrange(i + 1, i + g) =~= t.subrange(1, g));
        }
    }
}

/// Reading the rendering of one well-formed tag event gives the event back
/// and stops right past it, whatever follows.
pub proof fn lemma_parse_tag_render(e: EventV, rest: Seq<u8>)
    requires
        wf_event(e),
        !(e is Text),
    ensures
        parse_tag(render_event(e) + rest, 0) == Some((e, render_event(e).len() as int)),
{
    let re = render_event(e);
    let s = re + rest;
    match e {
        EventV::End(n) => {
            let p = 2 + n.len() as int;
            assert(s[p] == gt_b());
            assert forall|x: int| 2 <= x < p implies s[x] != gt_b() by {
                assert(s[x] == n[x - 2]);
            }
            lemma_find_from_hit(s, 2, gt_b(), p);
            assert(s.subrange(2, p) =~= n);
        },
        EventV::Start(n, a) => {
            let p = 1 + n.len() + a.len() as int;
            assert(s[p] == gt_b());
            assert forall|x: int| 1 <= x < p implies s[x] != gt_b() by {
                if x < 1 + n.len() {
                    assert(s[x] == n[x - 1]);
                } else {
                    assert(s[x] == a[x - 1 - n.len()]);
                }
            }
            lemma_find_from_hit(s, 1, gt_b(), p);
            let inner = s.subrange(1, p);
            assert(inner =~= n + a);
            assert(s[1] == n[0]);
            assert(inner.last() != slash_b()) by {
                if a.len() > 0 {
                    assert(inner.last() == a.last());
                } else {
                    assert(inner.last() == n.last());
                }
            }
            lemma_name_len_is(inner, n.len() as int);
            assert(inner.subrange(0, n.len() as int) =~= n);
            assert(inner.subrange(n.len() as int, inner.len() as int) =~= a);
        },
        EventV::Empty(n, a) => {
            let p = 1 + n.len() + a.len() + 1 as int;
            assert(s[p] == gt_b());
            assert forall|x: int| 1 <= x < p implies s[x] != gt_b() by {
                if x < 1 + n.len() {
                    assert(s[x] == n[x - 1]);
                } else if x < 1 + n.len() + a.len() {
                    assert(s[x] == a[x - 1 - n.len()]);
                } else {
                    assert(s[x] == slash_b());
                }
            }
            lemma_find_from_hit(s, 1, gt_b(), p);
            let inner = s.subrange(1, p);
            assert(inner =~= n + a + seq![slash_b()]);
            assert(s[1] == n[0]);
            assert(inner.last() == slash_b());
            let body = inner.drop_last();
            assert(body =~= n + a);
            lemma_name_len_is(body, n.len() as int);
            assert(body.subrange(0, n.len() as int) =~= n);
            assert(body.subrange(n.len() as int, body.len() as int) =~= a);
        },
        EventV::Text(_) => {},
    }
}

/// Reading the rendering of a well-formed event sequence, from wherever it
/// begins inside a larger text, gives the sequence back.
pub proof fn lemma_parse_render_from(evs: Seq<EventV>, s: Seq<u8>, i: int)
    requires
        wf_events(evs),
        0 <= i <= s.len(),
        s.skip(i) == render(evs),
    ensures
        parse_from(s, i) == Some(evs),
    decreases evs.len(),
{
    if evs.len() == 0 {
        assert(s.skip(i).len() == 0);
        assert(evs =~= Seq::<EventV>::empty());
    } else {
        let e = evs[0];
        let rest = evs.subrange(1, evs.len() as int);
        let re = render_event(e);
        assert(wf_event(e));
        assert(wf_events(rest)) by {
            assert(forall|k: int| 0 <= k < rest.len() ==> rest[k] == evs[k + 1]);
        }
        assert(s.skip(i) == re + render(rest));
        assert(forall|x: int| 0 <= x < s.skip(i).len() ==> s.skip(i)[x] == s[i + x]);
        match e {
            EventV::Text(t) => {
                assert(re == t);
                assert(s[i] == t[0]) by {
                    assert(s.skip(i)[0] == s[i]);
                    assert((re + render(rest))[0] == t[0]);
                }
                assert(s[i] != lt_b());
                let p = i + t.len() as int;
                assert forall|x: int| i <= x < p implies s[x] == t[x - i] by {
                    assert(s.skip(i)[x - i] == s[x]);
                    assert((re + render(rest))[x - i] == t[x - i]);
                }
                if rest.len() == 0 {
                    assert(render(rest).len() == 0);
                    assert(p == s.len());
                    assert(forall|x: int| i <= x < s.len() ==> s[x] != lt_b());
                    lemma_find_from_miss(s, i, lt_b());
                } else {
                    assert(!(rest[0] is Text)) by {
                        assert(evs[1] == rest[0]);
                    }
                    assert(render(rest) == render_event(rest[0]) + render(
                        rest.subrange(1, rest.len() as int),
                    ));
                    assert(render_event(rest[0])[0] == lt_b());
                    assert(s[p] == s.skip(i)[t.len() as int]);
                    assert(s.skip(i)[t.len() as int] == render(rest)[0]);
                    assert(forall|x: int| i <= x < p ==> s[x] != lt_b());
                    lemma_find_from_hit(s, i, lt_b(), p);
                }
                let j = find_from(s, i, lt_b());
                assert(j == p);
                assert(s.subrange(i, j) =~= t);
                assert(s.skip(j) =~= render(rest)) by {
                    assert(forall|x: int|
                        0 <= x < s.skip(j).len() ==> s.skip(j)[x] == s[j + x] && s.skip(i)[t.len()
                            + x] == s[j + x]);
                    assert(forall|x: int|
                        0 <= x < render(rest).len() ==> (re + render(rest))[t.len() + x] == render(
                            rest,
                        )[x]);
                }
                lemma_parse_render_from(rest, s, j);
                assert(seq![EventV::Text(t)] + rest =~= evs);
            },
            _ => {
                assert(re[0] == lt_b());
                assert(s[i] == re[0]) by {
                    assert(s.skip(i)[0] == s[i]);
                    assert((re + render(rest))[0] == re[0]);
                }
                lemma_parse_tag_shift(s, i);
                assert(s.skip(i) =~= re + render(rest));
                lemma_parse_tag_render(e, render(rest));
                let j = i + re.len() as int;
                assert(parse_tag(s, i) == Some((e, j)));
                assert(s.skip(j) =~= render(rest)) by {
                    assert(forall|x: int|
                        0 <= x < s.skip(j).len() ==> s.skip(j)[x] == s[j + x] && s.skip(i)[re.len()
                            + x] == s[j + x]);
                    assert(forall|x: int|
                        0 <= x < render(rest).len() ==> (re + render(rest))[re.len() + x] == render(
                            rest,
                        )[x]);
                }
                lemma_parse_render_from(rest, s, j);
                assert(seq![e] + rest =~= evs);
            },
        }
    }
}

/// Round trip: reading back the rendering of a well-formed event sequence
/// gives the sequence itself.
pub proof fn lemma_parse_render(evs: Seq<EventV>)
    requires
        wf_events(evs),
    ensures
        parse_doc(render(evs)) == Some(evs),
{
    assert(render(evs).skip(0) =~= render(evs));
    lemma_parse_render_from(evs, render(evs), 0);
}

/// Rendering distributes over concatenation.
pub proof fn lemma_render_concat(a: Seq<EventV>, b: Seq<EventV>)
    ensures
        render(a + b) == render(a) + render(b),
    decreases a.len(),
{
    if a.len() == 0 {
        assert(a + b =~= b);
        assert(render(a) + render(b) =~= render(b));
    } else {
        assert((a + b).subrange(1, (a + b).len() as int) =~= a.subrange(1, a.len() as int) + b);
        assert((a + b)[0] == a[0]);
        lemma_render_concat(a.subrange(1, a.len() as int), b);
        assert(render(a + b) =~= render(a) + render(b));
    }
}

/// A tag the reader gives back is well formed, and it is never a text.
pub proof fn lemma_parse_tag_wf(s: Seq<u8>, i: int)
    requires
        0 <= i <= s.len(),
        parse_tag(s, i) is Some,
    ensures
        wf_event(parse_tag(s, i)->Some_0.0),
        !(parse_tag(s, i)->Some_0.0 is Text),
{
    if i + 1 < s.len() && s[i + 1] == slash_b() {
    } else {
        let g = find_from(s, i + 1, gt_b());
        lemma_find_from(s, i + 1, gt_b());
        let inner = s.subrange(i + 1, g);
        if g < s.len() && inner.len() > 0 {
            let is_empty_tag = inner.last() == slash_b();
            let body = if is_empty_tag {
                inner.drop_last()
            } else {
                inner
            };
            lemma_name_len(body);
            let nl = name_len(body);
            let name = body.subrange(0, nl);
            let attrs = body.subrange(nl, body.len() as int);
            if nl > 0 && attrs_ok(attrs) {
                assert(wf_tag_name(name));
                if !is_empty_tag && attrs.len() > 0 {
                    assert(attrs.last() == inner.last());
                }
            }
        }
    }
}

/// What the reader gives back is well formed; and where it begins with a
/// text, the bytes did not begin with a tag.
pub proof fn lemma_parse_wf(s: Seq<u8>, i: int)
    requires
        0 <= i <= s.len(),
        parse_from(s, i) is Some,
    ensures
        wf_events(parse_from(s, i)->Some_0),
        (parse_from(s, i)->Some_0.len() > 0 && parse_from(s, i)->Some_0[0] is Text) ==> i < s.len()
            && s[i] != lt_b(),
    decreases s.len() - i,
{
    let es = parse_from(s, i)->Some_0;
    if i >= s.len() {
    } else if s[i] == lt_b() {
        let (ev, j) = parse_tag(s, i)->Some_0;
        lemma_parse_tag_wf(s, i);
        lemma_parse_wf(s, j);
        let rest = parse_from(s, j)->Some_0;
        assert(es == seq![ev] + rest);
        assert forall|k: int| 0 <= k < es.len() implies wf_event(#[trigger] es[k]) by {
            if k > 0 {
                assert(es[k] == rest[k - 1]);
            }
        }
        assert forall|k: int| 0 < k < es.len() implies !((#[trigger] es[k]) is Text && es[k - 1]
            is Text) by {
            if k > 1 {
                assert(es[k] == rest[k - 1] && es[k - 1] == rest[k - 2]);
            } else {
                assert(!(es[0] is Text));
            }
        }
    } else {
        let j = find_from(s, i, lt_b());
        lemma_find_from(s, i, lt_b());
        let t = s.subrange(i, j);
        lemma_parse_wf(s, j);
        let rest = parse_from(s, j)->Some_0;
        assert(wf_event(EventV::Text(t))) by {
            assert forall|x: int| 0 <= x < t.len() implies t[x] != lt_b() by {
                assert(t[x] == s[i + x]);
            }
        }
        if rest.len() > 0 && rest[0] is Text {
            assert(j < s.len() && s[j] != lt_b());
            assert(false);
        }
        assert(es == seq![EventV::Text(t)] + rest);
        assert forall|k: int| 0 <= k < es.len() implies wf_event(#[trigger] es[k]) by {
            if k > 0 {
                assert(es[k] == rest[k - 1]);
            }
        }
        assert forall|k: int| 0 < k < es.len() implies !((#[trigger] es[k]) is Text && es[k - 1]
            is Text) by {
            if k > 1 {
                assert(es[k] == rest[k - 1] && es[k - 1] == rest[k - 2]);
            } else {
                assert(es[1] == rest[0]);
            }
        }
    }
}

/// Every event well formed on its own; texts may still stand side by side.
pub open spec fn weak_wf_events(es: Seq<EventV>) -> bool {
    forall|i: int| 0 <= i < es.len() ==> wf_event(#[trigger] es[i])
}

/// The same events with runs of adjacent texts merged into one.
pub open spec fn norm(es: Seq<EventV>) -> Seq<EventV>
    decreases es.len(),
{
    if es.len() <= 1 {
        es
    } else {
        match (es[0], es[1]) {
            (EventV::Text(a), EventV::Text(b)) => norm(seq![EventV::Text(a + b)] + es.skip(2)),
            _ => seq![es[0]] + norm(es.skip(1)),
        }
    }
}

/// Merging texts does not change the rendering.
pub proof fn lemma_norm_render(es: Seq<EventV>)
    ensures
        render(norm(es)) == render(es),
    decreases es.len(),
{
    if es.len() <= 1 {
    } else {
        match (es[0], es[1]) {
            (EventV::Text(a), EventV::Text(b)) => {
                let merged = seq![EventV::Text(a + b)] + es.skip(2);
                lemma_norm_render(merged);
                assert(merged.subrange(1, merged.len() as int) =~= es.skip(2));
                assert(es.subrange(1, es.len() as int) =~= seq![es[1]] + es.skip(2));
                assert(es.subrange(1, es.len() as int).subrange(
                    1,
                    es.subrange(1, es.len() as int).len() as int,
                ) =~= es.skip(2));
                assert(render(es) == a + render(es.subrange(1, es.len() as int)));
                assert(render(es.subrange(1, es.len() as int)) == b + render(es.skip(2)));
                assert(render(merged) == (a + b) + render(es.skip(2))) by {
                    assert(merged[0] == EventV::Text(a + b));
                }
                assert(a + (b + render(es.skip(2))) =~= (a + b) + render(es.skip(2)));
            },
            _ => {
                lemma_norm_render(es.skip(1));
                assert(es.subrange(1, es.len() as int) =~= es.skip(1));
                let out = seq![es[0]] + norm(es.skip(1));
                assert(out.subrange(1, out.len() as int) =~= norm(es.skip(1)));
            },
        }
    }
}

/// The head of the merged events is a text only where the original head was.
proof fn lemma_norm_head(es: Seq<EventV>)
    ensures
        norm(es).len() > 0 <==> es.len() > 0,
        norm(es).len() > 0 ==> (norm(es)[0] is Text <==> es[0] is Text),
        norm(es).len() > 0 ==> (!(es[0] is Text) ==> norm(es)[0] == es[0]),
    decreases es.len(),
{
    if es.len() <= 1 {
    } else {
        match (es[0], es[1]) {
            (EventV::Text(a), EventV::Text(b)) => {
                lemma_norm_head(seq![EventV::Text(a + b)] + es.skip(2));
            },
            _ => {
                lemma_norm_head(es.skip(1));
            },
        }
    }
}

/// Merging adjacent texts of well-formed events gives a well-formed
/// sequence.
pub proof fn lemma_norm_wf(es: Seq<EventV>)
    requires
        weak_wf_events(es),
    ensures
        wf_events(norm(es)),
    decreases es.len(),
{
    if es.len() <= 1 {
    } else {
        match (es[0], es[1]) {
            (EventV::Text(a), EventV::Text(b)) => {
                let merged = seq![EventV::Text(a + b)] + es.skip(2);
                assert(wf_event(EventV::Text(a + b))) by {
                    assert((a + b)[0] == a[0]);
                    assert((a + b).last() == b.last());
                    assert(forall|x: int|
                        0 <= x < a.len() ==> (a + b)[x] == a[x]);
                    assert(forall|x: int|
                        0 <= x < b.len() ==> (a + b)[a.len() + x] == b[x]);
                }
                assert(weak_wf_events(merged)) by {
                    assert forall|k: int| 0 <= k < merged.len() implies wf_event(
                        #[trigger] merged[k],
                    ) by {
                        if k > 0 {
                            assert(merged[k] == es.skip(2)[k - 1]);
                            assert(es.skip(2)[k - 1] == es[k + 1]);
                        }
                    }
                }
                lemma_norm_wf(merged);
            },
            _ => {
                assert(weak_wf_events(es.skip(1))) by {
                    assert(forall|k: int| 0 <= k < es.skip(1).len() ==> es.skip(1)[k] == es[k + 1]);
                }
                lemma_norm_wf(es.skip(1));
                lemma_norm_head(es.skip(1));
                let out = seq![es[0]] + norm(es.skip(1));
                assert forall|k: int| 0 <= k < out.len() implies wf_event(#[trigger] out[k]) by {
                    if k > 0 {
                        assert(out[k] == norm(es.skip(1))[k - 1]);
                    }
                }
                assert forall|k: int| 0 < k < out.len() implies !((#[trigger] out[k]) is Text
                    && out[k - 1] is Text) by {
                    if k > 1 {
                        assert(out[k] == norm(es.skip(1))[k - 1] && out[k - 1] == norm(es.skip(1))[k
                            - 2]);
                    } else {
                        if out[1] is Text {
                            assert(norm(es.skip(1))[0] is Text);
                            assert(es.skip(1)[0] is Text);
                            assert(es[1] is Text);
                            assert(!(es[0] is Text));
                        }
                    }
                }
            },
        }
    }
}

} // verus!
