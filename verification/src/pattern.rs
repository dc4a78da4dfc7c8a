//! The marker grammar and a matcher for it.
//!
//! The marker is a line containing `[ k = Origin`, then (possibly after a
//! line break) the fixed tag `4b.02, l =`, a decimal length field, a second
//! decimal in parentheses, a closing `]`, then (possibly after a line break)
//! a decimal byte offset followed by the payload: exactly eight
//! two-hex-digit tokens separated by single spaces. Whitespace and digits
//! are the ASCII forms the
//! metadata-dump tool emits. Every run of whitespace or digits in the text is
//! read maximally, which is what a greedy matcher does here: each such run is
//! followed by a token that cannot extend it.
use vstd::prelude::*;

verus! {

/// ASCII whitespace: space, tab, line feed, carriage return, vertical tab
/// and form feed.
pub open spec fn is_ws(c: char) -> bool {
    c == ' ' || c == '\t' || c == '\n' || c == '\r' || c == '\u{b}' || c == '\u{c}'
}

/// ASCII decimal digit.
pub open spec fn is_digit(c: char) -> bool {
    '0' <= c && c <= '9'
}

/// ASCII hex digit, either case.
pub open spec fn is_hex_digit(c: char) -> bool {
    is_digit(c) || ('a' <= c && c <= 'f') || ('A' <= c && c <= 'F')
}

pub fn ws_char(c: char) -> (b: bool)
    ensures
        b == is_ws(c),
{
    c == ' ' || c == '\t' || c == '\n' || c == '\r' || c == '\u{b}' || c == '\u{c}'
}

pub fn digit_char(c: char) -> (b: bool)
    ensures
        b == is_digit(c),
{
    '0' <= c && c <= '9'
}

pub fn hex_char(c: char) -> (b: bool)
    ensures
        b == is_hex_digit(c),
{
    digit_char(c) || ('a' <= c && c <= 'f') || ('A' <= c && c <= 'F')
}

/// The opening literal of the marker: `[ k = Origin`.
pub open spec fn origin_lit() -> Seq<char> {
    seq!['[', ' ', 'k', ' ', '=', ' ', 'O', 'r', 'i', 'g', 'i', 'n']
}

/// The tag literal that follows: `4b.02, l =`.
pub open spec fn tag_lit() -> Seq<char> {
    seq!['4', 'b', '.', '0', '2', ',', ' ', 'l', ' ', '=']
}

/// The literal that closes the header: `) ]`.
pub open spec fn close_lit() -> Seq<char> {
    seq![')', ' ', ']']
}

/// The literal `lit` occurs in `s` at position `i`.
pub open spec fn lit_at(s: Seq<char>, i: int, lit: Seq<char>) -> bool {
    &&& 0 <= i
    &&& i + lit.len() <= s.len()
    &&& forall|k: int| 0 <= k < lit.len() ==> s[i + k] == lit[k]
}

/// Index just past the maximal run of whitespace starting at `i`.
pub open spec fn skip_ws(s: Seq<char>, i: int) -> int
    decreases s.len() - i
        when 0 <= i <= s.len()
{
    if i < s.len() && is_ws(s[i]) {
        skip_ws(s, i + 1)
    } else {
        i
    }
}

/// Index just past the maximal run of decimal digits starting at `i`.
pub open spec fn skip_digits(s: Seq<char>, i: int) -> int
    decreases s.len() - i
        when 0 <= i <= s.len()
{
    if i < s.len() && is_digit(s[i]) {
        skip_digits(s, i + 1)
    } else {
        i
    }
}

pub proof fn lemma_skip_ws(s: Seq<char>, i: int)
    requires
        0 <= i <= s.len(),
    ensures
        i <= skip_ws(s, i) <= s.len(),
        forall|j: int| i <= j < skip_ws(s, i) ==> is_ws(s[j]),
        skip_ws(s, i) == s.len() || !is_ws(s[skip_ws(s, i)]),
    decreases s.len() - i,
{
    if i < s.len() && is_ws(s[i]) {
        lemma_skip_ws(s, i + 1);
    }
}

pub proof fn lemma_skip_digits(s: Seq<char>, i: int)
    requires
        0 <= i <= s.len(),
    ensures
        i <= skip_digits(s, i) <= s.len(),
        forall|j: int| i <= j < skip_digits(s, i) ==> is_digit(s[j]),
        skip_digits(s, i) == s.len() || !is_digit(s[skip_digits(s, i)]),
    decreases s.len() - i,
{
    if i < s.len() && is_digit(s[i]) {
        lemma_skip_digits(s, i + 1);
    }
}

/// What the `k`th character of a payload must be: a separating space at the
/// third position of each token, a hex digit elsewhere.
pub open spec fn payload_char_ok(c: char, k: int) -> bool {
    if k % 3 == 2 {
        c == ' '
    } else {
        is_hex_digit(c)
    }
}

/// The payload shape: eight two-hex-digit tokens separated by single spaces,
/// 23 characters in all, starting at `i`.
pub open spec fn payload_at(s: Seq<char>, i: int) -> bool {
    &&& 0 <= i
    &&& i + 23 <= s.len()
    &&& forall|j: int| i <= j < i + 23 ==> payload_char_ok(#[trigger] s[j], j - i)
}

/// Attempt to read one whole marker whose opening bracket stands at `i`.
/// On success, yields the payload's start and end positions; the end of the
/// payload is also the end of the marker.
pub open spec fn try_match_at(s: Seq<char>, i: int) -> Option<(int, int)> {
    if !lit_at(s, i, origin_lit()) {
        None
    } else {
        let a = skip_ws(s, i + 12);
        if a == i + 12 || !lit_at(s, a, tag_lit()) {
            None
        } else {
            let b = skip_ws(s, a + 10);
            if b == a + 10 {
                None
            } else {
                let c = skip_digits(s, b);
                if c == b {
                    None
                } else {
                    let d = skip_ws(s, c);
                    if d == c || d >= s.len() || s[d] != '(' {
                        None
                    } else {
                        let e = skip_digits(s, d + 1);
                        if e == d + 1 || !lit_at(s, e, close_lit()) {
                            None
                        } else {
                            let f = skip_ws(s, e + 3);
                            if f - e < 5 {
                                None
                            } else {
                                let g = skip_digits(s, f);
                                if g == f {
                                    None
                                } else {
                                    let h = skip_ws(s, g);
                                    if h == g || !payload_at(s, h) {
                                        None
                                    } else {
                                        Some((h, h + 23))
                                    }
                                }
                            }
                        }
                    }
                }
            }
        }
    }
}

pub proof fn lemma_try_match_bounds(s: Seq<char>, i: int)
    requires
        0 <= i <= s.len(),
        try_match_at(s, i) is Some,
    ensures
        match try_match_at(s, i) {
            Some(pe) => payload_at(s, pe.0) && pe.1 == pe.0 + 23 && i < pe.0 && pe.1 <= s.len(),
            None => false,
        },
{
    let a = skip_ws(s, i + 12);
    lemma_skip_ws(s, i + 12);
    let b = skip_ws(s, a + 10);
    lemma_skip_ws(s, a + 10);
    let c = skip_digits(s, b);
    lemma_skip_digits(s, b);
    let d = skip_ws(s, c);
    lemma_skip_ws(s, c);
    let e = skip_digits(s, d + 1);
    lemma_skip_digits(s, d + 1);
    let f = skip_ws(s, e + 3);
    lemma_skip_ws(s, e + 3);
    let g = skip_digits(s, f);
    lemma_skip_digits(s, f);
    let h = skip_ws(s, g);
    lemma_skip_ws(s, g);
}

/// The payloads of all markers in `s`, scanned left to right; after a marker
/// is read the scan resumes at its end, so the markers taken are the leftmost
/// non-overlapping ones.
pub open spec fn captures_from(s: Seq<char>, i: int) -> Seq<Seq<char>>
    decreases s.len() - i
        when 0 <= i <= s.len()
        via captures_from_dec
{
    if i >= s.len() {
        seq![]
    } else {
        match try_match_at(s, i) {
            Some(pe) => seq![s.subrange(pe.0, pe.1)] + captures_from(s, pe.1),
            None => captures_from(s, i + 1),
        }
    }
}

#[via_fn]
proof fn captures_from_dec(s: Seq<char>, i: int) {
    if 0 <= i <= s.len() && i < s.len() {
        if try_match_at(s, i) is Some {
            lemma_try_match_bounds(s, i);
        }
    }
}

/// A text in which no marker starts anywhere yields no captures.
pub proof fn lemma_no_match_no_captures(s: Seq<char>, i: int)
    requires
        0 <= i <= s.len(),
        forall|j: int| 0 <= j < s.len() ==> try_match_at(s, j) is None,
    ensures
        captures_from(s, i) == Seq::<Seq<char>>::empty(),
    decreases s.len() - i,
{
    if i < s.len() {
        lemma_no_match_no_captures(s, i + 1);
    }
}

/// A text in which some marker does start yields at least one capture.
pub proof fn lemma_match_found(s: Seq<char>, i: int, j: int)
    requires
        0 <= i <= j < s.len(),
        try_match_at(s, j) is Some,
    ensures
        captures_from(s, i).len() > 0,
    decreases j - i,
{
    if try_match_at(s, i) is None {
        lemma_match_found(s, i + 1, j);
    }
}

/// Every capture the scan yields is the payload of a marker in the text.
pub proof fn lemma_captures_sound(s: Seq<char>, i: int, k: int)
    requires
        0 <= i <= s.len(),
        0 <= k < captures_from(s, i).len(),
    ensures
        exists|p: int|
            payload_at(s, p) && captures_from(s, i)[k] == s.subrange(p, p + 23),
    decreases s.len() - i,
{
    if i < s.len() {
        match try_match_at(s, i) {
            Some(pe) => {
                lemma_try_match_bounds(s, i);
                if k == 0 {
                    assert(payload_at(s, pe.0) && captures_from(s, i)[0] == s.subrange(
                        pe.0,
                        pe.0 + 23,
                    ));
                } else {
                    lemma_captures_sound(s, pe.1, k - 1);
                }
            },
            None => {
                lemma_captures_sound(s, i + 1, k);
            },
        }
    }
}

pub proof fn lemma_skip_ws_transfer(s1: Seq<char>, s2: Seq<char>, off: int, x: int, bound: int)
    requires
        0 <= x <= s1.len(),
        x <= bound <= s1.len(),
        skip_ws(s1, x) < bound,
        0 <= x + off,
        bound + off <= s2.len(),
        forall|y: int| x <= y < bound ==> s1[y] == s2[y + off],
    ensures
        skip_ws(s2, x + off) == skip_ws(s1, x) + off,
    decreases s1.len() - x,
{
    lemma_skip_ws(s1, x);
    if x < s1.len() && is_ws(s1[x]) {
        lemma_skip_ws_transfer(s1, s2, off, x + 1, bound);
    } else {
        assert(x < bound);
        assert(s2[x + off] == s1[x]);
    }
}

pub proof fn lemma_skip_digits_transfer(
    s1: Seq<char>,
    s2: Seq<char>,
    off: int,
    x: int,
    bound: int,
)
    requires
        0 <= x <= s1.len(),
        x <= bound <= s1.len(),
        skip_digits(s1, x) < bound,
        0 <= x + off,
        bound + off <= s2.len(),
        forall|y: int| x <= y < bound ==> s1[y] == s2[y + off],
    ensures
        skip_digits(s2, x + off) == skip_digits(s1, x) + off,
    decreases s1.len() - x,
{
    lemma_skip_digits(s1, x);
    if x < s1.len() && is_digit(s1[x]) {
        lemma_skip_digits_transfer(s1, s2, off, x + 1, bound);
    } else {
        assert(x < bound);
        assert(s2[x + off] == s1[x]);
    }
}

/// A marker match only looks at the characters of its own span, so it is
/// found at the shifted position in any text that holds the same span.
pub proof fn lemma_try_match_transfer(s1: Seq<char>, s2: Seq<char>, off: int, j: int)
    requires
        0 <= j <= s1.len(),
        try_match_at(s1, j) is Some,
        0 <= j + off,
        match try_match_at(s1, j) {
            Some(pe) => pe.1 + off <= s2.len() && forall|x: int|
                j <= x < pe.1 ==> s1[x] == s2[x + off],
            None => false,
        },
    ensures
        match try_match_at(s1, j) {
            Some(pe) => try_match_at(s2, j + off) == Some((pe.0 + off, pe.1 + off)),
            None => false,
        },
{
    lemma_try_match_bounds(s1, j);
    let pe = try_match_at(s1, j)->Some_0;
    let h = pe.0;
    let a = skip_ws(s1, j + 12);
    lemma_skip_ws(s1, j + 12);
    let b = skip_ws(s1, a + 10);
    lemma_skip_ws(s1, a + 10);
    let c = skip_digits(s1, b);
    lemma_skip_digits(s1, b);
    let d = skip_ws(s1, c);
    lemma_skip_ws(s1, c);
    let e = skip_digits(s1, d + 1);
    lemma_skip_digits(s1, d + 1);
    let f = skip_ws(s1, e + 3);
    lemma_skip_ws(s1, e + 3);
    let g = skip_digits(s1, f);
    lemma_skip_digits(s1, f);
    lemma_skip_ws(s1, g);
    assert(skip_ws(s1, g) == h);
    assert(j + 12 < a < b < c < d < e < f < g < h < pe.1);
    lemma_skip_ws_transfer(s1, s2, off, j + 12, a + 1);
    assert(lit_at(s2, a + off, tag_lit()));
    lemma_skip_ws_transfer(s1, s2, off, a + 10, b + 1);
    lemma_skip_digits_transfer(s1, s2, off, b, c + 1);
    lemma_skip_ws_transfer(s1, s2, off, c, d + 1);
    assert(s2[d + off] == s1[d]);
    lemma_skip_digits_transfer(s1, s2, off, d + 1, e + 1);
    assert(lit_at(s2, e + off, close_lit()));
    lemma_skip_ws_transfer(s1, s2, off, e + 3, f + 1);
    lemma_skip_digits_transfer(s1, s2, off, f, g + 1);
    lemma_skip_ws_transfer(s1, s2, off, g, h + 1);
    assert(lit_at(s2, j + off, origin_lit()));
    assert forall|y: int|
        h + off <= y < h + off + 23 implies payload_char_ok(#[trigger] s2[y], y - (h + off)) by {
        let x = y - off;
        assert(h <= x < h + 23);
        assert(s1[x] == s2[x + off]);
        assert(payload_char_ok(s1[x], x - h));
    }
    assert(payload_at(s2, h + off));
    assert(try_match_at(s2, j + off) == Some((h + off, h + off + 23)));
}

fn lit_at_exec(s: &Vec<char>, i: usize, lit: &Vec<char>) -> (b: bool)
    requires
        i <= s@.len(),
    ensures
        b == lit_at(s@, i as int, lit@),
{
    let n = s.len();
    if n - i < lit.len() {
        return false;
    }
    let mut k: usize = 0;
    while k < lit.len()
        invariant
            n == s@.len(),
            i + lit@.len() <= n,
            0 <= k <= lit@.len(),
            forall|m: int| 0 <= m < k ==> s@[i + m] == lit@[m],
        decreases lit@.len() - k,
    {
        if s[i + k] != lit[k] {
            return false;
        }
        k += 1;
    }
    true
}

fn skip_ws_exec(s: &Vec<char>, i: usize) -> (r: usize)
    requires
        i <= s@.len(),
    ensures
        r as int == skip_ws(s@, i as int),
        i <= r <= s@.len(),
{
    let mut j = i;
    while j < s.len() && ws_char(s[j])
        invariant
            i <= j <= s@.len(),
            skip_ws(s@, i as int) == skip_ws(s@, j as int),
        decreases s@.len() - j,
    {
        j += 1;
    }
    j
}

fn skip_digits_exec(s: &Vec<char>, i: usize) -> (r: usize)
    requires
        i <= s@.len(),
    ensures
        r as int == skip_digits(s@, i as int),
        i <= r <= s@.len(),
{
    let mut j = i;
    while j < s.len() && digit_char(s[j])
        invariant
            i <= j <= s@.len(),
            skip_digits(s@, i as int) == skip_digits(s@, j as int),
        decreases s@.len() - j,
    {
        j += 1;
    }
    j
}

fn payload_at_exec(s: &Vec<char>, i: usize) -> (b: bool)
    requires
        i <= s@.len(),
    ensures
        b == payload_at(s@, i as int),
{
    let n = s.len();
    if n - i < 23 {
        return false;
    }
    let mut k: usize = 0;
    while k < 23
        invariant
            0 <= k <= 23,
            i + 23 <= n,
            n == s@.len(),
            forall|j: int| i <= j < i + k ==> payload_char_ok(#[trigger] s@[j], j - i),
        decreases 23 - k,
    {
        if k % 3 == 2 {
            if s[i + k] != ' ' {
                return false;
            }
        } else {
            if !hex_char(s[i + k]) {
                return false;
            }
        }
        k += 1;
    }
    true
}

/// The literal vectors the matcher compares against, built once per scan.
struct Lits {
    origin: Vec<char>,
    tag: Vec<char>,
    close: Vec<char>,
}

impl Lits {
    spec fn wf(self) -> bool {
        self.origin@ == origin_lit() && self.tag@ == tag_lit() && self.close@ == close_lit()
    }

    fn new() -> (r: Lits)
        ensures
            r.wf(),
    {
        let origin: Vec<char> = vec!['[', ' ', 'k', ' ', '=', ' ', 'O', 'r', 'i', 'g', 'i', 'n'];
        let tag: Vec<char> = vec!['4', 'b', '.', '0', '2', ',', ' ', 'l', ' ', '='];
        let close: Vec<char> = vec![')', ' ', ']'];
        assert(origin@ =~= origin_lit());
        assert(tag@ =~= tag_lit());
        assert(close@ =~= close_lit());
        Lits { origin, tag, close }
    }
}

fn try_match_exec(s: &Vec<char>, i: usize, lits: &Lits) -> (r: Option<(usize, usize)>)
    requires
        i <= s@.len(),
        lits.wf(),
    ensures
        match r {
            Some(pe) => try_match_at(s@, i as int) == Some((pe.0 as int, pe.1 as int)),
            None => try_match_at(s@, i as int) is None,
        },
{
    let n = s.len();
    if !lit_at_exec(s, i, &lits.origin) {
        return None;
    }
    proof {
        assert(origin_lit().len() == 12);
        assert(i + 12 <= n);
    }
    let a = skip_ws_exec(s, i + 12);
    if a == i + 12 || !lit_at_exec(s, a, &lits.tag) {
        return None;
    }
    proof {
        assert(tag_lit().len() == 10);
        assert(a + 10 <= n);
    }
    let b = skip_ws_exec(s, a + 10);
    if b == a + 10 {
        return None;
    }
    let c = skip_digits_exec(s, b);
    if c == b {
        return None;
    }
    let d = skip_ws_exec(s, c);
    if d == c || d >= s.len() || s[d] != '(' {
        return None;
    }
    let e = skip_digits_exec(s, d + 1);
    if e == d + 1 || !lit_at_exec(s, e, &lits.close) {
        return None;
    }
    proof {
        assert(close_lit().len() == 3);
        assert(e + 3 <= n);
    }
    let f = skip_ws_exec(s, e + 3);
    if f - e < 5 {
        return None;
    }
    let g = skip_digits_exec(s, f);
    if g == f {
        return None;
    }
    let h = skip_ws_exec(s, g);
    if h == g || !payload_at_exec(s, h) {
        return None;
    }
    Some((h, h + 23))
}

/// A copy of `s[from..to]`.
pub fn copy_range(s: &Vec<char>, from: usize, to: usize) -> (r: Vec<char>)
    requires
        from <= to <= s@.len(),
    ensures
        r@ == s@.subrange(from as int, to as int),
{
    let mut r: Vec<char> = Vec::new();
    let mut k = from;
    while k < to
        invariant
            from <= k <= to <= s@.len(),
            r@ == s@.subrange(from as int, k as int),
        decreases to - k,
    {
        r.push(s[k]);
        assert(r@ =~= s@.subrange(from as int, (k + 1) as int));
        k += 1;
    }
    r
}

/// The payloads of all markers in `text`, leftmost non-overlapping, in order.
pub fn find_captures(text: &Vec<char>) -> (caps: Vec<Vec<char>>)
    ensures
        caps.deep_view() == captures_from(text@, 0),
{
    let lits = Lits::new();
    let mut caps: Vec<Vec<char>> = Vec::new();
    let mut i: usize = 0;
    while i < text.len()
        invariant
            0 <= i <= text@.len(),
            lits.wf(),
            captures_from(text@, 0) == caps.deep_view() + captures_from(text@, i as int),
        decreases text@.len() - i,
    {
        match try_match_exec(text, i, &lits) {
            Some(pe) => {
                proof {
                    lemma_try_match_bounds(text@, i as int);
                }
                let cap = copy_range(text, pe.0, pe.1);
                let ghost old_caps = caps.deep_view();
                caps.push(cap);
                assert(caps.deep_view() =~~= old_caps.push(cap@));
                assert(caps.deep_view() + captures_from(text@, pe.1 as int) =~~= old_caps + (seq![
                    text@.subrange(pe.0 as int, pe.1 as int),
                ] + captures_from(text@, pe.1 as int)));
                i = pe.1;
            },
            None => {
                i += 1;
            },
        }
    }
    assert(captures_from(text@, i as int) =~~= Seq::<Seq<char>>::empty());
    assert(caps.deep_view() =~~= caps.deep_view() + Seq::<Seq<char>>::empty());
    caps
}

/// The all-zero classification of a payload: every one of its eight tokens is
/// `00`, that is, every non-separator position holds the digit zero.
pub open spec fn all_zero_payload(c: Seq<char>) -> bool
    recommends
        c.len() == 23,
{
    forall|j: int| 0 <= j < 23 && j % 3 != 2 ==> #[trigger] c[j] == '0'
}

pub fn classify_all_zero(c: &Vec<char>) -> (b: bool)
    requires
        c@.len() == 23,
    ensures
        b == all_zero_payload(c@),
{
    let mut k: usize = 0;
    while k < 23
        invariant
            0 <= k <= 23,
            c@.len() == 23,
            forall|j: int| 0 <= j < k && j % 3 != 2 ==> #[trigger] c@[j] == '0',
        decreases 23 - k,
    {
        if k % 3 != 2 && c[k] != '0' {
            return false;
        }
        k += 1;
    }
    true
}

} // verus!
