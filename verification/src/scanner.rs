use vstd::prelude::*;

verus! {

// The directive grammar, over the bytes of a text fragment: two opening braces,
// optional whitespace, the keyword `#fetch`, mandatory whitespace, a locator of
// 5 to 200 characters drawn from anything but whitespace and braces, optional
// whitespace, and two closing braces. Whitespace is ASCII whitespace; a
// whitespace character outside ASCII (a no-break space, an ideographic space)
// counts as a locator character here. A directive may begin anywhere in the
// fragment, at the start as well as in the middle of a word: no character is
// required before the opening braces.

/// ASCII whitespace: space, tab, line feed, vertical tab, form feed, carriage
/// return.
pub open spec fn is_space(b: u8) -> bool {
    b == 32 || b == 9 || b == 10 || b == 11 || b == 12 || b == 13
}

/// A byte that may stand in a locator: anything but whitespace and braces.
pub open spec fn is_locator_byte(b: u8) -> bool {
    !is_space(b) && b != 123 && b != 125
}

/// A byte that begins a character in well-formed text: not a continuation byte.
pub open spec fn is_char_start(b: u8) -> bool {
    b < 128 || b >= 192
}

/// The keyword that follows the opening braces: `#fetch`.
pub open spec fn fetch_keyword() -> Seq<u8> {
    seq![35u8, 102u8, 101u8, 116u8, 99u8, 104u8]
}

/// The first position at or after `i` that holds a non-whitespace byte, or the end.
pub open spec fn skip_spaces(t: Seq<u8>, i: int) -> int
    decreases t.len() - i when 0 <= i <= t.len()
{
    if i == t.len() {
        i
    } else if is_space(t[i]) {
        skip_spaces(t, i + 1)
    } else {
        i
    }
}

/// The end of the maximal run of locator bytes that starts at `i`.
pub open spec fn locator_run_end(t: Seq<u8>, i: int) -> int
    decreases t.len() - i when 0 <= i <= t.len()
{
    if i == t.len() {
        i
    } else if is_locator_byte(t[i]) {
        locator_run_end(t, i + 1)
    } else {
        i
    }
}

/// The number of character starts among the bytes of `t[i..j)`.
pub open spec fn char_count(t: Seq<u8>, i: int, j: int) -> int
    decreases j - i when i <= j
{
    if i >= j {
        0
    } else {
        char_count(t, i, j - 1) + if is_char_start(t[j - 1]) { 1int } else { 0int }
    }
}

/// A directive occurrence, as positions into the scanned fragment: the whole
/// span is `[start, end)`, the locator within it is `[loc_start, loc_end)`.
pub ghost struct SpecMatch {
    pub start: int,
    pub loc_start: int,
    pub loc_end: int,
    pub end: int,
}

/// The one directive that can begin at position `p` of `t`, if any. The
/// whitespace runs and the locator run are maximal, so each part's boundary is
/// determined by the text.
pub open spec fn try_match(t: Seq<u8>, p: int) -> Option<SpecMatch> {
    if !(0 <= p && p + 2 <= t.len() && t[p] == 123 && t[p + 1] == 123) {
        None
    } else {
        let k = skip_spaces(t, p + 2);
        if !(k + 6 <= t.len() && t.subrange(k, k + 6) == fetch_keyword()) {
            None
        } else {
            let ls = skip_spaces(t, k + 6);
            if !(k + 6 < ls && ls < t.len() && is_locator_byte(t[ls])) {
                None
            } else {
                let le = locator_run_end(t, ls);
                if !(5 <= char_count(t, ls, le) <= 200) {
                    None
                } else {
                    let e = skip_spaces(t, le);
                    if !(e + 2 <= t.len() && t[e] == 125 && t[e + 1] == 125) {
                        None
                    } else {
                        Some(SpecMatch { start: p, loc_start: ls, loc_end: le, end: e + 2 })
                    }
                }
            }
        }
    }
}

/// All directive occurrences at or after position `p`, left to right, resuming
/// after the end of each occurrence.
pub open spec fn spec_scan_from(t: Seq<u8>, p: int) -> Seq<SpecMatch>
    decreases t.len() - p when 0 <= p via spec_scan_from_decreases
{
    if p >= t.len() {
        seq![]
    } else {
        match try_match(t, p) {
            Some(m) => seq![m] + spec_scan_from(t, m.end),
            None => spec_scan_from(t, p + 1),
        }
    }
}

#[via_fn]
proof fn spec_scan_from_decreases(t: Seq<u8>, p: int) {
    if p < t.len() {
        if let Some(m) = try_match(t, p) {
            lemma_try_match_bounds(t, p);
        }
    }
}

/// Every byte of `t[i..j)` is whitespace.
pub open spec fn all_spaces(t: Seq<u8>, i: int, j: int) -> bool {
    forall|q: int| i <= q < j ==> is_space(#[trigger] t[q])
}

/// Every byte of `t[i..j)` is a locator byte.
pub open spec fn all_locator(t: Seq<u8>, i: int, j: int) -> bool {
    forall|q: int| i <= q < j ==> is_locator_byte(#[trigger] t[q])
}

/// The declarative shape of a directive: braces, whitespace run, keyword at `k`,
/// a non-empty whitespace run, a locator run of 5 to 200 characters, a
/// whitespace run, braces.
pub open spec fn directive_shape(
    t: Seq<u8>,
    start: int,
    k: int,
    ls: int,
    le: int,
    end: int,
) -> bool {
    &&& 0 <= start
    &&& start + 2 <= k
    &&& k + 6 < ls
    &&& ls < le
    &&& le <= end - 2
    &&& end <= t.len()
    &&& t[start] == 123 && t[start + 1] == 123
    &&& all_spaces(t, start + 2, k)
    &&& t.subrange(k, k + 6) == fetch_keyword()
    &&& all_spaces(t, k + 6, ls)
    &&& all_locator(t, ls, le)
    &&& 5 <= char_count(t, ls, le) <= 200
    &&& all_spaces(t, le, end - 2)
    &&& t[end - 2] == 125 && t[end - 1] == 125
}

/// A directive stands at `start`, with the given locator span and end.
pub open spec fn match_at(t: Seq<u8>, start: int, loc_start: int, loc_end: int, end: int) -> bool {
    exists|k: int| directive_shape(t, start, k, loc_start, loc_end, end)
}

/// Some directive begins at position `p`.
pub open spec fn some_match_at(t: Seq<u8>, p: int) -> bool {
    exists|ls: int, le: int, end: int| match_at(t, p, ls, le, end)
}

/// `skip_spaces` stays within the text, skips only whitespace, and stops at the
/// first byte that is not whitespace.
pub proof fn lemma_skip_spaces(t: Seq<u8>, i: int)
    requires
        0 <= i <= t.len(),
    ensures
        i <= skip_spaces(t, i) <= t.len(),
        all_spaces(t, i, skip_spaces(t, i)),
        skip_spaces(t, i) < t.len() ==> !is_space(t[skip_spaces(t, i)]),
    decreases t.len() - i,
{
    if i < t.len() && is_space(t[i]) {
        lemma_skip_spaces(t, i + 1);
    }
}

/// A whitespace run that ends at a non-whitespace byte (or at the end of the
/// text) ends exactly where `skip_spaces` says.
pub proof fn lemma_skip_spaces_unique(t: Seq<u8>, i: int, j: int)
    requires
        0 <= i <= j <= t.len(),
        all_spaces(t, i, j),
        j < t.len() ==> !is_space(t[j]),
    ensures
        skip_spaces(t, i) == j,
    decreases j - i,
{
    if i < j {
        lemma_skip_spaces_unique(t, i + 1, j);
    }
}

/// `locator_run_end` stays within the text, covers only locator bytes, and stops
/// at the first byte that is not one.
pub proof fn lemma_locator_run_end(t: Seq<u8>, i: int)
    requires
        0 <= i <= t.len(),
    ensures
        i <= locator_run_end(t, i) <= t.len(),
        all_locator(t, i, locator_run_end(t, i)),
        locator_run_end(t, i) < t.len() ==> !is_locator_byte(t[locator_run_end(t, i)]),
    decreases t.len() - i,
{
    if i < t.len() && is_locator_byte(t[i]) {
        lemma_locator_run_end(t, i + 1);
    }
}

/// A locator run that ends at a non-locator byte (or at the end of the text)
/// ends exactly where `locator_run_end` says.
pub proof fn lemma_locator_run_end_unique(t: Seq<u8>, i: int, j: int)
    requires
        0 <= i <= j <= t.len(),
        all_locator(t, i, j),
        j < t.len() ==> !is_locator_byte(t[j]),
    ensures
        locator_run_end(t, i) == j,
    decreases j - i,
{
    if i < j {
        lemma_locator_run_end_unique(t, i + 1, j);
    }
}

/// A span holds at most as many character starts as bytes.
pub proof fn lemma_char_count_le(t: Seq<u8>, i: int, j: int)
    requires
        i <= j,
    ensures
        0 <= char_count(t, i, j) <= j - i,
    decreases j - i,
{
    if i < j {
        lemma_char_count_le(t, i, j - 1);
    }
}

/// What a found occurrence guarantees: its spans nest and are in bounds, and the
/// declarative shape holds at its positions.
pub proof fn lemma_try_match_bounds(t: Seq<u8>, p: int)
    requires
        try_match(t, p) is Some,
    ensures
        ({
            let m = try_match(t, p)->Some_0;
            &&& m.start == p
            &&& p + 2 <= m.loc_start
            &&& m.loc_start < m.loc_end
            &&& m.loc_end < m.end
            &&& m.end <= t.len()
        }),
{
    let k = skip_spaces(t, p + 2);
    lemma_skip_spaces(t, p + 2);
    let ls = skip_spaces(t, k + 6);
    lemma_skip_spaces(t, k + 6);
    let le = locator_run_end(t, ls);
    lemma_locator_run_end(t, ls);
    lemma_skip_spaces(t, le);
}

/// A found occurrence satisfies the declarative shape.
pub proof fn lemma_try_match_sound(t: Seq<u8>, p: int)
    requires
        try_match(t, p) is Some,
    ensures
        ({
            let m = try_match(t, p)->Some_0;
            match_at(t, p, m.loc_start, m.loc_end, m.end)
        }),
{
    let k = skip_spaces(t, p + 2);
    lemma_skip_spaces(t, p + 2);
    let ls = skip_spaces(t, k + 6);
    lemma_skip_spaces(t, k + 6);
    let le = locator_run_end(t, ls);
    lemma_locator_run_end(t, ls);
    let e = skip_spaces(t, le);
    lemma_skip_spaces(t, le);
    let m = try_match(t, p)->Some_0;
    assert(directive_shape(t, p, k, m.loc_start, m.loc_end, m.end));
}

/// A directive's decomposition is determined by its starting position: whatever
/// spans witness `match_at`, they are the ones `try_match` computes.
pub proof fn lemma_match_determined(t: Seq<u8>, start: int, ls: int, le: int, end: int)
    requires
        match_at(t, start, ls, le, end),
    ensures
        try_match(t, start) == Some(SpecMatch { start, loc_start: ls, loc_end: le, end }),
{
    let k = choose|k: int| directive_shape(t, start, k, ls, le, end);
    assert(t.subrange(k, k + 6)[0] == t[k]);
    assert(t[k] == 35);
    assert(!is_space(t[k]));
    lemma_skip_spaces_unique(t, start + 2, k);
    assert(!is_space(t[ls]));
    lemma_skip_spaces_unique(t, k + 6, ls);
    if le < end - 2 {
        assert(is_space(t[le]));
        assert(!is_locator_byte(t[le]));
    } else {
        assert(t[le] == 125);
        assert(!is_locator_byte(t[le]));
    }
    lemma_locator_run_end_unique(t, ls, le);
    assert(t[end - 2] == 125);
    assert(!is_space(t[end - 2]));
    lemma_skip_spaces_unique(t, le, end - 2);
}

/// No directive begins where `try_match` finds none.
pub proof fn lemma_try_match_complete(t: Seq<u8>, p: int)
    requires
        try_match(t, p) is None,
    ensures
        !some_match_at(t, p),
{
    if some_match_at(t, p) {
        let (ls, le, end) = choose|ls: int, le: int, end: int| match_at(t, p, ls, le, end);
        lemma_match_determined(t, p, ls, le, end);
    }
}

/// Position `q` lies inside none of the reported spans.
pub open spec fn free_at(ms: Seq<SpecMatch>, q: int) -> bool {
    forall|i: int| 0 <= i < ms.len() ==> !((#[trigger] ms[i]).start <= q < ms[i].end)
}

/// The scan's characterization: every reported occurrence is a directive, the
/// spans are ordered and disjoint, and no directive begins outside them.
pub open spec fn scan_ok(t: Seq<u8>, ms: Seq<SpecMatch>) -> bool {
    &&& forall|i: int| 0 <= i < ms.len() ==> {
        let m = #[trigger] ms[i];
        &&& match_at(t, m.start, m.loc_start, m.loc_end, m.end)
        &&& 0 <= m.start
        &&& m.start + 2 <= m.loc_start
        &&& m.loc_start < m.loc_end
        &&& m.loc_end < m.end
        &&& m.end <= t.len()
    }
    &&& forall|i: int| 0 <= i < ms.len() - 1 ==> (#[trigger] ms[i]).end <= ms[i + 1].start
    &&& forall|q: int| 0 <= q < t.len() && free_at(ms, q) ==> !some_match_at(t, q)
}

/// The scan from `p` reports exactly the directives at or after `p`, in order.
pub proof fn lemma_scan_from_ok(t: Seq<u8>, p: int)
    requires
        0 <= p,
    ensures
        ({
            let ms = spec_scan_from(t, p);
            &&& forall|i: int| 0 <= i < ms.len() ==> {
                let m = #[trigger] ms[i];
                &&& match_at(t, m.start, m.loc_start, m.loc_end, m.end)
                &&& p <= m.start
                &&& m.start + 2 <= m.loc_start
                &&& m.loc_start < m.loc_end
                &&& m.loc_end < m.end
                &&& m.end <= t.len()
            }
            &&& forall|i: int| 0 <= i < ms.len() - 1 ==> (#[trigger] ms[i]).end <= ms[i + 1].start
            &&& forall|q: int| p <= q < t.len() && free_at(ms, q) ==> !some_match_at(t, q)
        }),
    decreases t.len() - p,
{
    let ms = spec_scan_from(t, p);
    if p >= t.len() {
        assert(ms =~= Seq::<SpecMatch>::empty());
    } else {
        match try_match(t, p) {
            Some(m) => {
                lemma_try_match_bounds(t, p);
                lemma_try_match_sound(t, p);
                lemma_scan_from_ok(t, m.end);
                let rest = spec_scan_from(t, m.end);
                assert(ms =~= seq![m] + rest);
                assert(ms.len() == 1 + rest.len());
                assert(ms[0] == m);
                assert(forall|i: int| 1 <= i < ms.len() ==> #[trigger] ms[i] == rest[i - 1]);
                assert forall|i: int| 0 <= i < ms.len() implies {
                    let mi = #[trigger] ms[i];
                    &&& match_at(t, mi.start, mi.loc_start, mi.loc_end, mi.end)
                    &&& p <= mi.start
                    &&& mi.start + 2 <= mi.loc_start
                    &&& mi.loc_start < mi.loc_end
                    &&& mi.loc_end < mi.end
                    &&& mi.end <= t.len()
                } by {
                    if i > 0 {
                        assert(ms[i] == rest[i - 1]);
                    }
                }
                assert forall|i: int| 0 <= i < ms.len() - 1 implies (#[trigger] ms[i]).end
                    <= ms[i + 1].start by {
                    if i > 0 {
                        assert(ms[i] == rest[i - 1]);
                        assert(ms[i + 1] == rest[i]);
                    } else {
                        assert(ms[1] == rest[0]);
                    }
                }
                assert forall|q: int| p <= q < t.len() && free_at(ms, q) implies !some_match_at(
                    t,
                    q,
                ) by {
                    assert(ms[0] == m);
                    if q < m.end {
                        assert(m.start <= q < m.end ==> !free_at(ms, q));
                        assert(false);
                    } else {
                        assert(free_at(rest, q)) by {
                            assert forall|i: int| 0 <= i < rest.len() implies !((
                            #[trigger] rest[i]).start <= q < rest[i].end) by {
                                assert(rest[i] == ms[i + 1]);
                            }
                        }
                    }
                }
            },
            None => {
                lemma_try_match_complete(t, p);
                lemma_scan_from_ok(t, p + 1);
                assert(ms =~= spec_scan_from(t, p + 1));
                assert forall|i: int| 0 <= i < ms.len() implies {
                    let mi = #[trigger] ms[i];
                    &&& match_at(t, mi.start, mi.loc_start, mi.loc_end, mi.end)
                    &&& p <= mi.start
                    &&& mi.start + 2 <= mi.loc_start
                    &&& mi.loc_start < mi.loc_end
                    &&& mi.loc_end < mi.end
                    &&& mi.end <= t.len()
                } by {
                    assert(ms[i] == spec_scan_from(t, p + 1)[i]);
                }
            },
        }
    }
}

/// A directive occurrence, as byte offsets into the scanned fragment: the whole
/// span is `[start, end)`, the locator within it is `[loc_start, loc_end)`.
pub struct Match {
    pub start: usize,
    pub loc_start: usize,
    pub loc_end: usize,
    pub end: usize,
}

impl View for Match {
    type V = SpecMatch;

    open spec fn view(&self) -> SpecMatch {
        SpecMatch {
            start: self.start as int,
            loc_start: self.loc_start as int,
            loc_end: self.loc_end as int,
            end: self.end as int,
        }
    }
}

/// The positions of a sequence of occurrences.
pub open spec fn views_of(ms: Seq<Match>) -> Seq<SpecMatch> {
    ms.map_values(|m: Match| m@)
}

fn is_space_exec(b: u8) -> (r: bool)
    ensures
        r == is_space(b),
{
    b == 32 || (9 <= b && b <= 13)
}

fn is_locator_byte_exec(b: u8) -> (r: bool)
    ensures
        r == is_locator_byte(b),
{
    !(b == 32 || (9 <= b && b <= 13) || b == 123 || b == 125)
}

fn skip_spaces_exec(t: &[u8], from: usize) -> (r: usize)
    requires
        from <= t@.len(),
    ensures
        r == skip_spaces(t@, from as int),
        from <= r <= t@.len(),
{
    let mut i = from;
    while i < t.len() && is_space_exec(t[i])
        invariant
            from <= i <= t@.len(),
            skip_spaces(t@, from as int) == skip_spaces(t@, i as int),
        decreases t@.len() - i,
    {
        i = i + 1;
    }
    proof {
        lemma_skip_spaces(t@, from as int);
    }
    i
}

fn locator_run_end_exec(t: &[u8], from: usize) -> (r: usize)
    requires
        from <= t@.len(),
    ensures
        r == locator_run_end(t@, from as int),
        from <= r <= t@.len(),
{
    let mut i = from;
    while i < t.len() && is_locator_byte_exec(t[i])
        invariant
            from <= i <= t@.len(),
            locator_run_end(t@, from as int) == locator_run_end(t@, i as int),
        decreases t@.len() - i,
    {
        i = i + 1;
    }
    proof {
        lemma_locator_run_end(t@, from as int);
    }
    i
}

fn char_count_exec(t: &[u8], i: usize, j: usize) -> (n: usize)
    requires
        i <= j <= t@.len(),
    ensures
        n == char_count(t@, i as int, j as int),
{
    let mut c: usize = 0;
    let mut q = i;
    while q < j
        invariant
            i <= q <= j <= t@.len(),
            c == char_count(t@, i as int, q as int),
            c <= q - i,
        decreases j - q,
    {
        proof {
            lemma_char_count_le(t@, i as int, q as int);
        }
        let b = t[q];
        if b < 128 || b >= 192 {
            c = c + 1;
        }
        q = q + 1;
    }
    c
}

/// The one directive that can begin at position `p`, if any.
fn try_match_exec(t: &[u8], p: usize) -> (r: Option<Match>)
    requires
        p < t@.len(),
    ensures
        match r {
            Some(m) => try_match(t@, p as int) == Some(m@),
            None => try_match(t@, p as int) is None,
        },
{
    let n = t.len();
    if n - p < 2 || !(t[p] == 123 && t[p + 1] == 123) {
        return None;
    }
    let k = skip_spaces_exec(t, p + 2);
    if n - k < 6 {
        assert(try_match(t@, p as int) is None);
        return None;
    }
    if !(t[k] == 35 && t[k + 1] == 102 && t[k + 2] == 101 && t[k + 3] == 116 && t[k + 4] == 99
        && t[k + 5] == 104) {
        proof {
            let ks = t@.subrange(k as int, k as int + 6);
            if ks == fetch_keyword() {
                assert(ks[0] == t@[k as int]);
                assert(ks[1] == t@[k as int + 1]);
                assert(ks[2] == t@[k as int + 2]);
                assert(ks[3] == t@[k as int + 3]);
                assert(ks[4] == t@[k as int + 4]);
                assert(ks[5] == t@[k as int + 5]);
            }
        }
        return None;
    }
    assert(t@.subrange(k as int, k as int + 6) =~= fetch_keyword());
    let ls = skip_spaces_exec(t, k + 6);
    if !(ls > k + 6 && ls < n && is_locator_byte_exec(t[ls])) {
        return None;
    }
    let le = locator_run_end_exec(t, ls);
    let cc = char_count_exec(t, ls, le);
    if cc < 5 || cc > 200 {
        return None;
    }
    let e = skip_spaces_exec(t, le);
    if n - e < 2 || !(t[e] == 125 && t[e + 1] == 125) {
        return None;
    }
    Some(Match { start: p, loc_start: ls, loc_end: le, end: e + 2 })
}

/// Scan a text fragment for directives, left to right, resuming after the end
/// of each occurrence. The result is exactly the occurrence list of the
/// grammar, and so satisfies `scan_ok`: each reported span is a directive, the
/// spans are ordered and disjoint, and no directive begins outside them.
pub fn scan(t: &[u8]) -> (ms: Vec<Match>)
    ensures
        views_of(ms@) == spec_scan_from(t@, 0),
        scan_ok(t@, views_of(ms@)),
{
    let mut ms: Vec<Match> = Vec::new();
    let mut p: usize = 0;
    while p < t.len()
        invariant
            p <= t@.len(),
            spec_scan_from(t@, 0) =~= views_of(ms@) + spec_scan_from(t@, p as int),
        decreases t@.len() - p,
    {
        let ghost old_ms = ms@;
        let ghost old_p = p as int;
        match try_match_exec(t, p) {
            Some(m) => {
                proof {
                    lemma_try_match_bounds(t@, p as int);
                }
                let next = m.end;
                ms.push(m);
                p = next;
                proof {
                    assert(views_of(ms@) =~= views_of(old_ms) + seq![ms@[ms@.len() - 1]@]);
                    assert(spec_scan_from(t@, old_p) =~= seq![ms@[ms@.len() - 1]@]
                        + spec_scan_from(t@, p as int));
                    assert(spec_scan_from(t@, 0) =~= views_of(ms@) + spec_scan_from(
                        t@,
                        p as int,
                    ));
                }
            },
            None => {
                p = p + 1;
                proof {
                    assert(spec_scan_from(t@, old_p) =~= spec_scan_from(t@, p as int));
                }
            },
        }
    }
    proof {
        assert(spec_scan_from(t@, p as int) =~= Seq::<SpecMatch>::empty());
        assert(views_of(ms@) =~= spec_scan_from(t@, 0));
        lemma_scan_from_ok(t@, 0);
    }
    ms
}

} // verus!
