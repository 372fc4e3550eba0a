//! Reading problem instances that follow the CVRPLIB conventions.
//!
//! The text is split into white-space separated tokens after its first three lines
//! (NAME, COMMENT, TYPE). The header gives the number of nodes and the capacity and
//! optional duration limit and service time; the body gives the coordinates and the
//! demand of each node and ends with the depot section. Floating-point values are
//! checked against the syntax of `f64` and reported by the position of their token,
//! for the caller to convert.
use vstd::prelude::*;
use crate::text::{parse_unsigned, parse_i64, is_float_text, parse_unsigned_text, parse_i64_text, is_float_text_exec};

verus! {

/// Length of the white-space character (in the sense of `char::is_whitespace`)
/// that starts at byte `i` of a UTF-8 text, or 0 when none starts there.
pub open spec fn white_space_len(s: Seq<u8>, i: int) -> int {
    let b = s[i];
    if b == 9 || b == 10 || b == 11 || b == 12 || b == 13 || b == 32 {
        1
    } else if b == 0xC2 && i + 1 < s.len() && (s[i + 1] == 0x85 || s[i + 1] == 0xA0) {
        2
    } else if b == 0xE1 && i + 2 < s.len() && s[i + 1] == 0x9A && s[i + 2] == 0x80 {
        3
    } else if b == 0xE2 && i + 2 < s.len() && ((s[i + 1] == 0x80 && ((0x80 <= s[i + 2] <= 0x8A)
        || s[i + 2] == 0xA8 || s[i + 2] == 0xA9 || s[i + 2] == 0xAF)) || (s[i + 1] == 0x81 && s[i
        + 2] == 0x9F)) {
        3
    } else if b == 0xE3 && i + 2 < s.len() && s[i + 1] == 0x80 && s[i + 2] == 0x80 {
        3
    } else {
        0
    }
}

/// The tokens of `s` from byte `i` on, as byte ranges; `cur` is the start of the
/// token being read, if any.
pub open spec fn scan_tokens(s: Seq<u8>, i: int, cur: Option<usize>) -> Seq<(usize, usize)>
    decreases s.len() - i,
{
    if i >= s.len() {
        match cur {
            Some(a) => seq![(a, s.len() as usize)],
            None => Seq::empty(),
        }
    } else {
        let w = white_space_len(s, i);
        if w > 0 {
            let rest = scan_tokens(s, i + w, None);
            match cur {
                Some(a) => seq![(a, i as usize)] + rest,
                None => rest,
            }
        } else {
            scan_tokens(
                s,
                i + 1,
                if cur is None {
                    Some(i as usize)
                } else {
                    cur
                },
            )
        }
    }
}

/// Position of the first newline at or after `p`, or the length of `s`.
pub open spec fn next_newline(s: Seq<u8>, p: int) -> int
    decreases s.len() - p,
{
    if p >= s.len() {
        s.len() as int
    } else if s[p] == 10 {
        p
    } else {
        next_newline(s, p + 1)
    }
}

/// Position after `k` more lines from `p` (the end of the text if it has fewer).
pub open spec fn skip_lines(s: Seq<u8>, p: int, k: nat) -> int
    decreases k,
{
    if k == 0 {
        p
    } else {
        let q = next_newline(s, p);
        if q >= s.len() {
            s.len() as int
        } else {
            skip_lines(s, q + 1, (k - 1) as nat)
        }
    }
}

/// The tokens of an instance file: the white-space separated words after its
/// first three lines.
pub open spec fn instance_token_ranges(s: Seq<u8>) -> Seq<(usize, usize)> {
    scan_tokens(s, skip_lines(s, 0, 3), None)
}

/// The ranges are tokens of the text.
pub open spec fn ranges_in_text(s: Seq<u8>, toks: Seq<(usize, usize)>) -> bool {
    forall|k: int| 0 <= k < toks.len() ==> #[trigger] toks[k].0 <= toks[k].1 <= s.len()
}

/// The text of each token.
pub open spec fn token_texts(s: Seq<u8>, toks: Seq<(usize, usize)>) -> Seq<Seq<u8>> {
    toks.map_values(|t: (usize, usize)| s.subrange(t.0 as int, t.1 as int))
}

/// The keyword `NODE_COORD_SECTION`.
pub open spec fn word_node_coord_section() -> Seq<u8> {
    seq![78u8, 79u8, 68u8, 69u8, 95u8, 67u8, 79u8, 79u8, 82u8, 68u8, 95u8, 83u8, 69u8, 67u8, 84u8, 73u8, 79u8, 78u8]
}

/// The keyword `DIMENSION`.
pub open spec fn word_dimension() -> Seq<u8> {
    seq![68u8, 73u8, 77u8, 69u8, 78u8, 83u8, 73u8, 79u8, 78u8]
}

/// The keyword `EDGE_WEIGHT_TYPE`.
pub open spec fn word_edge_weight_type() -> Seq<u8> {
    seq![69u8, 68u8, 71u8, 69u8, 95u8, 87u8, 69u8, 73u8, 71u8, 72u8, 84u8, 95u8, 84u8, 89u8, 80u8, 69u8]
}

/// The keyword `CAPACITY`.
pub open spec fn word_capacity() -> Seq<u8> {
    seq![67u8, 65u8, 80u8, 65u8, 67u8, 73u8, 84u8, 89u8]
}

/// The keyword `DISTANCE`.
pub open spec fn word_distance() -> Seq<u8> {
    seq![68u8, 73u8, 83u8, 84u8, 65u8, 78u8, 67u8, 69u8]
}

/// The keyword `SERVICE_TIME`.
pub open spec fn word_service_time() -> Seq<u8> {
    seq![83u8, 69u8, 82u8, 86u8, 73u8, 67u8, 69u8, 95u8, 84u8, 73u8, 77u8, 69u8]
}

/// The keyword `DEMAND_SECTION`.
pub open spec fn word_demand_section() -> Seq<u8> {
    seq![68u8, 69u8, 77u8, 65u8, 78u8, 68u8, 95u8, 83u8, 69u8, 67u8, 84u8, 73u8, 79u8, 78u8]
}

/// The keyword `DEPOT_SECTION`.
pub open spec fn word_depot_section() -> Seq<u8> {
    seq![68u8, 69u8, 80u8, 79u8, 84u8, 95u8, 83u8, 69u8, 67u8, 84u8, 73u8, 79u8, 78u8]
}

/// The keyword `EOF`.
pub open spec fn word_eof() -> Seq<u8> {
    seq![69u8, 79u8, 70u8]
}

/// The keyword `1`.
pub open spec fn word_one() -> Seq<u8> {
    seq![49u8]
}

/// Whether token `t` of the text equals a keyword.
fn token_is(content: &[u8], t: (usize, usize), word: &[u8]) -> (r: bool)
    requires
        t.0 <= t.1 <= content@.len(),
    ensures
        r == (content@.subrange(t.0 as int, t.1 as int) == word@),
{
    if t.1 - t.0 != word.len() {
        return false;
    }
    let mut i: usize = 0;
    while i < word.len()
        invariant
            t.0 <= t.1 <= content@.len(),
            t.1 - t.0 == word@.len(),
            i <= word@.len(),
            forall|k: int| 0 <= k < i ==> content@[t.0 + k] == word@[k],
        decreases word@.len() - i,
    {
        if content[t.0 + i] != word[i] {
            proof {
                assert(content@.subrange(t.0 as int, t.1 as int)[i as int] != word@[i as int]);
            }
            return false;
        }
        i = i + 1;
    }
    proof {
        assert(content@.subrange(t.0 as int, t.1 as int) =~= word@);
    }
    true
}

fn is_node_coord_section(content: &[u8], t: (usize, usize)) -> (r: bool)
    requires
        t.0 <= t.1 <= content@.len(),
    ensures
        r == (content@.subrange(t.0 as int, t.1 as int) == word_node_coord_section()),
{
    let word: [u8; 18] = [78, 79, 68, 69, 95, 67, 79, 79, 82, 68, 95, 83, 69, 67, 84, 73, 79, 78];
    proof {
        assert(word@ =~= word_node_coord_section());
    }
    token_is(content, t, word.as_slice())
}

fn is_dimension(content: &[u8], t: (usize, usize)) -> (r: bool)
    requires
        t.0 <= t.1 <= content@.len(),
    ensures
        r == (content@.subrange(t.0 as int, t.1 as int) == word_dimension()),
{
    let word: [u8; 9] = [68, 73, 77, 69, 78, 83, 73, 79, 78];
    proof {
        assert(word@ =~= word_dimension());
    }
    token_is(content, t, word.as_slice())
}

fn is_edge_weight_type(content: &[u8], t: (usize, usize)) -> (r: bool)
    requires
        t.0 <= t.1 <= content@.len(),
    ensures
        r == (content@.subrange(t.0 as int, t.1 as int) == word_edge_weight_type()),
{
    let word: [u8; 16] = [69, 68, 71, 69, 95, 87, 69, 73, 71, 72, 84, 95, 84, 89, 80, 69];
    proof {
        assert(word@ =~= word_edge_weight_type());
    }
    token_is(content, t, word.as_slice())
}

fn is_capacity(content: &[u8], t: (usize, usize)) -> (r: bool)
    requires
        t.0 <= t.1 <= content@.len(),
    ensures
        r == (content@.subrange(t.0 as int, t.1 as int) == word_capacity()),
{
    let word: [u8; 8] = [67, 65, 80, 65, 67, 73, 84, 89];
    proof {
        assert(word@ =~= word_capacity());
    }
    token_is(content, t, word.as_slice())
}

fn is_distance(content: &[u8], t: (usize, usize)) -> (r: bool)
    requires
        t.0 <= t.1 <= content@.len(),
    ensures
        r == (content@.subrange(t.0 as int, t.1 as int) == word_distance()),
{
    let word: [u8; 8] = [68, 73, 83, 84, 65, 78, 67, 69];
    proof {
        assert(word@ =~= word_distance());
    }
    token_is(content, t, word.as_slice())
}

fn is_service_time(content: &[u8], t: (usize, usize)) -> (r: bool)
    requires
        t.0 <= t.1 <= content@.len(),
    ensures
        r == (content@.subrange(t.0 as int, t.1 as int) == word_service_time()),
{
    let word: [u8; 12] = [83, 69, 82, 86, 73, 67, 69, 95, 84, 73, 77, 69];
    proof {
        assert(word@ =~= word_service_time());
    }
    token_is(content, t, word.as_slice())
}

fn is_demand_section(content: &[u8], t: (usize, usize)) -> (r: bool)
    requires
        t.0 <= t.1 <= content@.len(),
    ensures
        r == (content@.subrange(t.0 as int, t.1 as int) == word_demand_section()),
{
    let word: [u8; 14] = [68, 69, 77, 65, 78, 68, 95, 83, 69, 67, 84, 73, 79, 78];
    proof {
        assert(word@ =~= word_demand_section());
    }
    token_is(content, t, word.as_slice())
}

fn is_depot_section(content: &[u8], t: (usize, usize)) -> (r: bool)
    requires
        t.0 <= t.1 <= content@.len(),
    ensures
        r == (content@.subrange(t.0 as int, t.1 as int) == word_depot_section()),
{
    let word: [u8; 13] = [68, 69, 80, 79, 84, 95, 83, 69, 67, 84, 73, 79, 78];
    proof {
        assert(word@ =~= word_depot_section());
    }
    token_is(content, t, word.as_slice())
}

fn is_eof(content: &[u8], t: (usize, usize)) -> (r: bool)
    requires
        t.0 <= t.1 <= content@.len(),
    ensures
        r == (content@.subrange(t.0 as int, t.1 as int) == word_eof()),
{
    let word: [u8; 3] = [69, 79, 70];
    proof {
        assert(word@ =~= word_eof());
    }
    token_is(content, t, word.as_slice())
}

fn is_one(content: &[u8], t: (usize, usize)) -> (r: bool)
    requires
        t.0 <= t.1 <= content@.len(),
    ensures
        r == (content@.subrange(t.0 as int, t.1 as int) == word_one()),
{
    let word: [u8; 1] = [49];
    proof {
        assert(word@ =~= word_one());
    }
    token_is(content, t, word.as_slice())
}


proof fn lemma_white_space_fits(s: Seq<u8>, i: int)
    requires
        0 <= i < s.len(),
    ensures
        0 <= white_space_len(s, i) <= 3,
        i + white_space_len(s, i) <= s.len(),
{
}

proof fn lemma_scan_ranges(s: Seq<u8>, i: int, cur: Option<usize>)
    requires
        0 <= i <= s.len() <= usize::MAX,
        cur matches Some(a) ==> a <= i,
    ensures
        ranges_in_text(s, scan_tokens(s, i, cur)),
    decreases s.len() - i,
{
    if i < s.len() {
        lemma_white_space_fits(s, i);
        let w = white_space_len(s, i);
        if w > 0 {
            lemma_scan_ranges(s, i + w, None);
        } else {
            lemma_scan_ranges(
                s,
                i + 1,
                if cur is None {
                    Some(i as usize)
                } else {
                    cur
                },
            );
        }
    }
}

proof fn lemma_skip_lines_in_text(s: Seq<u8>, p: int, k: nat)
    requires
        0 <= p <= s.len(),
    ensures
        p <= skip_lines(s, p, k) <= s.len(),
    decreases k,
{
    if k > 0 {
        lemma_next_newline(s, p);
        let q = next_newline(s, p);
        if q < s.len() {
            lemma_skip_lines_in_text(s, q + 1, (k - 1) as nat);
        }
    }
}

proof fn lemma_next_newline(s: Seq<u8>, p: int)
    requires
        0 <= p <= s.len(),
    ensures
        p <= next_newline(s, p) <= s.len(),
    decreases s.len() - p,
{
    if p < s.len() && s[p] != 10 {
        lemma_next_newline(s, p + 1);
    }
}

/// An ASCII white-space byte: tab, line feed, vertical tab, form feed, carriage
/// return or space.
pub open spec fn is_ascii_blank(b: u8) -> bool {
    b == 9 || b == 10 || b == 11 || b == 12 || b == 13 || b == 32
}

/// The code point encoded in UTF-8 from byte `k`, for well-formed two- and
/// three-byte sequences (`-1` otherwise).
pub open spec fn multi_byte_code_point(s: Seq<u8>, k: int) -> int {
    let b0 = s[k] as int;
    if 0xC2 <= b0 <= 0xDF && k + 1 < s.len() && 0x80 <= s[k + 1] <= 0xBF {
        (b0 - 0xC0) * 64 + (s[k + 1] - 0x80)
    } else if 0xE0 <= b0 <= 0xEF && k + 2 < s.len() && 0x80 <= s[k + 1] <= 0xBF && 0x80 <= s[k
        + 2] <= 0xBF && (b0 != 0xE0 || s[k + 1] >= 0xA0) && (b0 != 0xED || s[k + 1] <= 0x9F) {
        (b0 - 0xE0) * 4096 + (s[k + 1] - 0x80) * 64 + (s[k + 2] - 0x80)
    } else {
        -1
    }
}

/// The non-ASCII white-space code points of Unicode: U+0085, U+00A0, U+1680,
/// U+2000 to U+200A, U+2028, U+2029, U+202F, U+205F and U+3000.
pub open spec fn is_wide_blank(c: int) -> bool {
    c == 0x85 || c == 0xA0 || c == 0x1680 || (0x2000 <= c <= 0x200A) || c == 0x2028 || c
        == 0x2029 || c == 0x202F || c == 0x205F || c == 0x3000
}

/// A position where no white-space character starts.
spec fn no_blank_at(s: Seq<u8>, k: int) -> bool {
    white_space_len(s, k) == 0
}

proof fn lemma_no_blank_at(s: Seq<u8>, k: int)
    requires
        0 <= k < s.len(),
        no_blank_at(s, k),
    ensures
        !is_ascii_blank(s[k]),
        !is_wide_blank(multi_byte_code_point(s, k)),
{
    let b0 = s[k] as int;
    let c = multi_byte_code_point(s, k);
    if 0xC2 <= b0 <= 0xDF && k + 1 < s.len() && 0x80 <= s[k + 1] <= 0xBF {
        let b1 = s[k + 1] as int;
        assert(c == (b0 - 0xC0) * 64 + (b1 - 0x80));
        if is_wide_blank(c) {
            assert(c == 0x85 || c == 0xA0);
            assert(b0 == 0xC2);
            assert(false);
        }
    } else if 0xE0 <= b0 <= 0xEF && k + 2 < s.len() && 0x80 <= s[k + 1] <= 0xBF && 0x80 <= s[k
        + 2] <= 0xBF && (b0 != 0xE0 || s[k + 1] >= 0xA0) && (b0 != 0xED || s[k + 1] <= 0x9F) {
        let b1 = s[k + 1] as int;
        let b2 = s[k + 2] as int;
        assert(c == (b0 - 0xE0) * 4096 + (b1 - 0x80) * 64 + (b2 - 0x80));
        assert(c >= 0x800);
        if is_wide_blank(c) {
            if b0 <= 0xE1 {
                assert(b0 == 0xE1);
                assert(c == 0x1680);
            }
            if c == 0x1680 {
                assert(b0 == 0xE1 && b1 == 0x9A && b2 == 0x80);
            } else if c == 0x3000 {
                assert(b0 == 0xE3 && b1 == 0x80 && b2 == 0x80);
            } else if c == 0x205F {
                assert(b0 == 0xE2 && b1 == 0x81 && b2 == 0x9F);
            } else {
                assert(b0 == 0xE2 && b1 == 0x80);
            }
            assert(false);
        }
    }
}

proof fn lemma_scan_no_blank(s: Seq<u8>, i: int, cur: Option<usize>)
    requires
        0 <= i <= s.len() <= usize::MAX,
        cur matches Some(a) ==> a <= i && forall|k: int| a <= k < i ==> #[trigger] no_blank_at(s, k),
    ensures
        forall|t: int, k: int|
            #![trigger scan_tokens(s, i, cur)[t], no_blank_at(s, k)]
            0 <= t < scan_tokens(s, i, cur).len() && scan_tokens(s, i, cur)[t].0 <= k
                < scan_tokens(s, i, cur)[t].1 ==> no_blank_at(s, k),
    decreases s.len() - i,
{
    if i < s.len() {
        lemma_white_space_fits(s, i);
        let w = white_space_len(s, i);
        if w > 0 {
            lemma_scan_no_blank(s, i + w, None);
            let rest = scan_tokens(s, i + w, None);
            match cur {
                Some(a) => {
                    let all = seq![(a, i as usize)] + rest;
                    assert(scan_tokens(s, i, cur) == all);
                    assert forall|t: int, k: int|
                        #![trigger all[t], no_blank_at(s, k)]
                        0 <= t < all.len() && all[t].0 <= k < all[t].1 implies no_blank_at(s, k) by {
                        if t > 0 {
                            assert(all[t] == rest[t - 1]);
                        }
                    }
                },
                None => {
                    assert(scan_tokens(s, i, cur) == rest);
                },
            }
        } else {
            let next = if cur is None {
                Some(i as usize)
            } else {
                cur
            };
            lemma_scan_no_blank(s, i + 1, next);
            assert(scan_tokens(s, i, cur) == scan_tokens(s, i + 1, next));
        }
    } else {
        match cur {
            Some(a) => {
                let all = seq![(a, s.len() as usize)];
                assert(scan_tokens(s, i, cur) == all);
                assert forall|t: int, k: int|
                    #![trigger all[t], no_blank_at(s, k)]
                    0 <= t < all.len() && all[t].0 <= k < all[t].1 implies no_blank_at(s, k) by {
                    assert(t == 0);
                }
            },
            None => {},
        }
    }
}

/// No token holds white space: every byte of every token of an instance file is
/// neither an ASCII white-space byte (carriage return included) nor the start of a
/// non-ASCII white-space character.
pub proof fn lemma_tokens_hold_no_white_space(s: Seq<u8>)
    requires
        s.len() <= usize::MAX,
    ensures
        forall|t: int, k: int|
            #![trigger instance_token_ranges(s)[t], s[k]]
            0 <= t < instance_token_ranges(s).len() && instance_token_ranges(s)[t].0 <= k
                < instance_token_ranges(s)[t].1 ==> !is_ascii_blank(s[k]) && !is_wide_blank(
                multi_byte_code_point(s, k),
            ),
{
    lemma_skip_lines_in_text(s, 0, 3);
    lemma_scan_ranges(s, skip_lines(s, 0, 3), None);
    lemma_scan_no_blank(s, skip_lines(s, 0, 3), None);
    let toks = instance_token_ranges(s);
    assert forall|t: int, k: int| #![trigger toks[t], s[k]] 0 <= t < toks.len() && toks[t].0 <= k < toks[t].1 implies !is_ascii_blank(s[k])
        && !is_wide_blank(multi_byte_code_point(s, k)) by {
        assert(no_blank_at(s, k));
        lemma_no_blank_at(s, k);
    }
}

/// An ASCII byte that is not white space: a byte of some word.
pub open spec fn is_ascii_word_byte(b: u8) -> bool {
    b < 128 && !is_ascii_blank(b)
}

proof fn lemma_scan_covers(s: Seq<u8>, i: int, cur: Option<usize>)
    requires
        0 <= i <= s.len() <= usize::MAX,
        cur matches Some(a) ==> a <= i,
    ensures
        cur matches Some(a) ==> scan_tokens(s, i, cur).len() > 0 && scan_tokens(s, i, cur)[0].0
            == a && scan_tokens(s, i, cur)[0].1 >= i,
        forall|k: int|
            i <= k < s.len() && is_ascii_word_byte(#[trigger] s[k]) ==> exists|t: int|
                0 <= t < scan_tokens(s, i, cur).len() && #[trigger] scan_tokens(s, i, cur)[t].0
                    <= k < scan_tokens(s, i, cur)[t].1,
    decreases s.len() - i,
{
    if i < s.len() {
        lemma_white_space_fits(s, i);
        let w = white_space_len(s, i);
        let all = scan_tokens(s, i, cur);
        if w > 0 {
            lemma_scan_covers(s, i + w, None);
            let rest = scan_tokens(s, i + w, None);
            let shift: int = if cur is Some {
                1
            } else {
                0
            };
            assert(all.len() == rest.len() + shift);
            assert forall|t: int| 0 <= t < rest.len() implies #[trigger] all[t + shift] == rest[t] by {
                if cur is Some {
                    assert(all == seq![(cur.unwrap(), i as usize)] + rest);
                } else {
                    assert(all == rest);
                }
            }
            if cur is Some {
                assert(all == seq![(cur.unwrap(), i as usize)] + rest);
            }
            assert forall|k: int| i <= k < s.len() && is_ascii_word_byte(#[trigger] s[k]) implies exists|t: int|
                0 <= t < all.len() && #[trigger] all[t].0 <= k < all[t].1 by {
                assert(k >= i + w);
                let t = choose|t: int| 0 <= t < rest.len() && #[trigger] rest[t].0 <= k < rest[t].1;
                assert(all[t + shift] == rest[t]);
            }
        } else {
            let next = if cur is None {
                Some(i as usize)
            } else {
                cur
            };
            lemma_scan_covers(s, i + 1, next);
            assert(all == scan_tokens(s, i + 1, next));
            assert forall|k: int| i <= k < s.len() && is_ascii_word_byte(#[trigger] s[k]) implies exists|t: int|
                0 <= t < all.len() && #[trigger] all[t].0 <= k < all[t].1 by {
                if k == i {
                    assert(all[0].0 <= k < all[0].1);
                }
            }
        }
    } else {
        if cur is Some {
            assert(scan_tokens(s, i, cur) == seq![(cur.unwrap(), s.len() as usize)]);
        }
    }
}

/// No word is lost: every ASCII byte after the first three lines of an instance
/// file that is not white space lies in one of its tokens.
pub proof fn lemma_tokens_cover_words(s: Seq<u8>)
    requires
        s.len() <= usize::MAX,
    ensures
        forall|k: int|
            skip_lines(s, 0, 3) <= k < s.len() && is_ascii_word_byte(#[trigger] s[k]) ==> exists|t: int|
                0 <= t < instance_token_ranges(s).len() && #[trigger] instance_token_ranges(s)[t].0
                    <= k < instance_token_ranges(s)[t].1,
{
    lemma_skip_lines_in_text(s, 0, 3);
    let start = skip_lines(s, 0, 3);
    lemma_scan_covers(s, start, None);
    let toks = instance_token_ranges(s);
    assert(toks == scan_tokens(s, start, None));
    assert forall|k: int| start <= k < s.len() && is_ascii_word_byte(#[trigger] s[k]) implies exists|t: int|
        0 <= t < toks.len() && #[trigger] toks[t].0 <= k < toks[t].1 by {
        let t = choose|t: int|
            0 <= t < scan_tokens(s, start, None).len() && #[trigger] scan_tokens(s, start, None)[t].0
                <= k < scan_tokens(s, start, None)[t].1;
        assert(toks[t].0 <= k < toks[t].1);
    }
}

/// Splits an instance file into its tokens: the white-space separated words after
/// its first three lines.
pub fn instance_tokens(content: &[u8]) -> (toks: Vec<(usize, usize)>)
    ensures
        toks@ == instance_token_ranges(content@),
        ranges_in_text(content@, toks@),
{
    let len: usize = content.len();
    let mut start: usize = 0;
    let mut line: usize = 0;
    let ghost s: Seq<u8> = content@;
    while line < 3
        invariant
            len == s.len(),
            s == content@,
            line <= 3,
            start <= len,
            skip_lines(s, 0, 3) == skip_lines(s, start as int, (3 - line) as nat),
        decreases 3 - line,
    {
        let mut q: usize = start;
        while q < len && content[q] != 10
            invariant
                start <= q <= len == s.len(),
                s == content@,
                next_newline(s, start as int) == next_newline(s, q as int),
            decreases len - q,
        {
            q = q + 1;
        }
        if q >= len {
            start = len;
            line = 3;
        } else {
            start = q + 1;
            line = line + 1;
        }
    }
    proof {
        lemma_skip_lines_in_text(s, 0, 3);
    }
    let mut out: Vec<(usize, usize)> = Vec::new();
    let mut cur: Option<usize> = None;
    let mut i: usize = start;
    while i < len
        invariant
            len == s.len(),
            s == content@,
            start <= i <= len,
            cur matches Some(a) ==> a <= i,
            scan_tokens(s, start as int, None) == out@ + scan_tokens(s, i as int, cur),
        decreases len - i,
    {
        proof {
            lemma_white_space_fits(s, i as int);
        }
        let w: usize = white_space_len_exec(content, i);
        if w > 0 {
            match cur {
                Some(a) => {
                    let ghost old_out: Seq<(usize, usize)> = out@;
                    out.push((a, i));
                    proof {
                        assert(old_out + (seq![(a, i)] + scan_tokens(s, i + w, None)) =~= out@
                            + scan_tokens(s, i + w, None));
                    }
                },
                None => {},
            }
            cur = None;
            i = i + w;
        } else {
            if cur.is_none() {
                cur = Some(i);
            }
            i = i + 1;
        }
    }
    match cur {
        Some(a) => {
            out.push((a, len));
        },
        None => {},
    }
    proof {
        assert(scan_tokens(s, start as int, None) =~= out@);
        lemma_scan_ranges(s, start as int, None);
    }
    out
}

fn white_space_len_exec(s: &[u8], i: usize) -> (w: usize)
    requires
        i < s@.len(),
    ensures
        w == white_space_len(s@, i as int),
{
    let len: usize = s.len();
    let b: u8 = s[i];
    if b == 9 || b == 10 || b == 11 || b == 12 || b == 13 || b == 32 {
        1
    } else if b == 0xC2 && i + 1 < len && (s[i + 1] == 0x85 || s[i + 1] == 0xA0) {
        2
    } else if b == 0xE1 && i + 1 < len && i + 2 < len && s[i + 1] == 0x9A && s[i + 2] == 0x80 {
        3
    } else if b == 0xE2 && i + 1 < len && i + 2 < len && ((s[i + 1] == 0x80 && ((0x80 <= s[i + 2] && s[i + 2]
        <= 0x8A) || s[i + 2] == 0xA8 || s[i + 2] == 0xA9 || s[i + 2] == 0xAF)) || (s[i + 1] == 0x81
        && s[i + 2] == 0x9F)) {
        3
    } else if b == 0xE3 && i + 1 < len && i + 2 < len && s[i + 1] == 0x80 && s[i + 2] == 0x80 {
        3
    } else {
        0
    }
}

/// Why an instance file was refused.
#[derive(Clone, Copy, PartialEq, Eq, Structural)]
pub enum InstanceError {
    /// The file ends before the data that is expected.
    EndOfInput,
    /// The token at this position cannot be read as the number it should be.
    BadValue(usize),
    /// The token at this position is not what the format expects there.
    UnexpectedData(usize),
    /// The number of nodes is missing, or there is no client.
    NodesUndefined,
    /// The nodes of the coordinate section are not numbered 1, 2, 3, ...
    NodeNumbering,
    /// The depot, whose index is the token at this position, is not node 1.
    DepotIndex(usize),
}

/// What the header of an instance gives.
#[derive(Clone, Copy, PartialEq, Eq, Structural)]
pub struct InstanceHeader {
    /// Number of clients (nodes but the depot), when DIMENSION was given.
    pub nb_clients: Option<usize>,
    /// Position of the token that gives the vehicle capacity.
    pub capacity_token: Option<usize>,
    /// Position of the token that gives the route duration limit.
    pub duration_limit_token: Option<usize>,
    /// Position of the token that gives the service time of the clients.
    pub service_time_token: Option<usize>,
    /// Position of the first token after NODE_COORD_SECTION.
    pub body_start: usize,
}

pub open spec fn empty_header() -> InstanceHeader {
    InstanceHeader {
        nb_clients: None,
        capacity_token: None,
        duration_limit_token: None,
        service_time_token: None,
        body_start: 0,
    }
}

/// Reads the header entries (keyword, separator, value) from token `pos` on, up
/// to NODE_COORD_SECTION.
pub open spec fn header_from(toks: Seq<Seq<u8>>, pos: int, h: InstanceHeader) -> Result<
    InstanceHeader,
    InstanceError,
>
    decreases toks.len() - pos,
{
    if pos < 0 || pos >= toks.len() {
        Err(InstanceError::EndOfInput)
    } else {
        let t = toks[pos];
        if t == word_node_coord_section() {
            Ok(InstanceHeader { body_start: (pos + 1) as usize, ..h })
        } else if t == word_dimension() || t == word_edge_weight_type() || t == word_capacity() || t
            == word_distance() || t == word_service_time() {
            if pos + 2 >= toks.len() {
                Err(InstanceError::EndOfInput)
            } else {
                let v = toks[pos + 2];
                let at = (pos + 2) as usize;
                if t == word_dimension() {
                    match parse_unsigned(v, usize::MAX as int) {
                        None => Err(InstanceError::BadValue(at)),
                        Some(d) => header_from(
                            toks,
                            pos + 3,
                            InstanceHeader {
                                nb_clients: Some(
                                    (if d >= 1 {
                                        d - 1
                                    } else {
                                        0
                                    }) as usize,
                                ),
                                ..h
                            },
                        ),
                    }
                } else if t == word_edge_weight_type() {
                    header_from(toks, pos + 3, h)
                } else if !is_float_text(v) {
                    Err(InstanceError::BadValue(at))
                } else if t == word_capacity() {
                    header_from(toks, pos + 3, InstanceHeader { capacity_token: Some(at), ..h })
                } else if t == word_distance() {
                    header_from(
                        toks,
                        pos + 3,
                        InstanceHeader { duration_limit_token: Some(at), ..h },
                    )
                } else {
                    header_from(
                        toks,
                        pos + 3,
                        InstanceHeader { service_time_token: Some(at), ..h },
                    )
                }
            }
        } else {
            Err(InstanceError::UnexpectedData(pos as usize))
        }
    }
}

/// The header of an instance; it must define a positive number of clients.
pub open spec fn instance_header(toks: Seq<Seq<u8>>) -> Result<InstanceHeader, InstanceError> {
    match header_from(toks, 0, empty_header()) {
        Err(e) => Err(e),
        Ok(h) => if h.nb_clients is None || h.nb_clients == Some(0usize) {
            Err(InstanceError::NodesUndefined)
        } else {
            Ok(h)
        },
    }
}

/// Reads the header of an instance from its tokens.
pub fn read_header(content: &[u8], toks: &Vec<(usize, usize)>) -> (r: Result<
    InstanceHeader,
    InstanceError,
>)
    requires
        ranges_in_text(content@, toks@),
    ensures
        r == instance_header(token_texts(content@, toks@)),
{
    let ghost texts: Seq<Seq<u8>> = token_texts(content@, toks@);
    let mut h = InstanceHeader {
        nb_clients: None,
        capacity_token: None,
        duration_limit_token: None,
        service_time_token: None,
        body_start: 0,
    };
    let mut pos: usize = 0;
    let n: usize = toks.len();
    loop
        invariant
            n == toks@.len() == texts.len(),
            texts == token_texts(content@, toks@),
            ranges_in_text(content@, toks@),
            pos <= n,
            header_from(texts, 0, empty_header()) == header_from(texts, pos as int, h),
        ensures
            header_from(texts, 0, empty_header()) == Ok::<InstanceHeader, InstanceError>(h),
        decreases n - pos,
    {
        if pos >= n {
            return Err(InstanceError::EndOfInput);
        }
        let t: (usize, usize) = toks[pos];
        proof {
            assert(texts[pos as int] == content@.subrange(t.0 as int, t.1 as int));
        }
        if is_node_coord_section(content, t) {
            h.body_start = pos + 1;
            break ;
        }
        let d: bool = is_dimension(content, t);
        let e: bool = is_edge_weight_type(content, t);
        let c: bool = is_capacity(content, t);
        let l: bool = is_distance(content, t);
        let st: bool = is_service_time(content, t);
        if !(d || e || c || l || st) {
            return Err(InstanceError::UnexpectedData(pos));
        }
        if n - pos <= 2 {
            return Err(InstanceError::EndOfInput);
        }
        let at: usize = pos + 2;
        let vt: (usize, usize) = toks[at];
        let v: &[u8] = slice_of(content, vt);
        proof {
            assert(texts[at as int] == v@);
        }
        if d {
            match parse_unsigned_text(v, usize::MAX as u64) {
                None => {
                    return Err(InstanceError::BadValue(at));
                },
                Some(dim) => {
                    let dim: usize = dim as usize;
                    h.nb_clients = Some(
                        if dim >= 1 {
                            dim - 1
                        } else {
                            0
                        },
                    );
                },
            }
        } else if e {
        } else if !is_float_text_exec(v) {
            return Err(InstanceError::BadValue(at));
        } else if c {
            h.capacity_token = Some(at);
        } else if l {
            h.duration_limit_token = Some(at);
        } else {
            h.service_time_token = Some(at);
        }
        pos = pos + 3;
    }
    match h.nb_clients {
        None => Err(InstanceError::NodesUndefined),
        Some(k) => if k == 0 {
            Err(InstanceError::NodesUndefined)
        } else {
            Ok(h)
        },
    }
}

/// The bytes of a token.
fn slice_of(content: &[u8], t: (usize, usize)) -> (r: &[u8])
    requires
        t.0 <= t.1 <= content@.len(),
    ensures
        r@ == content@.subrange(t.0 as int, t.1 as int),
{
    let r: &[u8] = &content[t.0..t.1];
    r
}

/// Reads the coordinate lines (node number, x, y) of nodes `i..=n` from token
/// `pos` on: the position after them, or the first error.
pub open spec fn coordinates_from(toks: Seq<Seq<u8>>, pos: int, i: int, n: int) -> Result<
    int,
    InstanceError,
>
    decreases n + 1 - i,
{
    if i > n {
        Ok(pos)
    } else if pos < 0 || pos >= toks.len() {
        Err(InstanceError::EndOfInput)
    } else {
        match parse_i64(toks[pos]) {
            None => Err(InstanceError::BadValue(pos as usize)),
            Some(number) => if pos + 1 >= toks.len() {
                Err(InstanceError::EndOfInput)
            } else if !is_float_text(toks[pos + 1]) {
                Err(InstanceError::BadValue((pos + 1) as usize))
            } else if pos + 2 >= toks.len() {
                Err(InstanceError::EndOfInput)
            } else if !is_float_text(toks[pos + 2]) {
                Err(InstanceError::BadValue((pos + 2) as usize))
            } else if number != i + 1 {
                Err(InstanceError::NodeNumbering)
            } else {
                coordinates_from(toks, pos + 3, i + 1, n)
            },
        }
    }
}

/// Reads the demand lines (node number, demand) of nodes `i..=n` from token `pos`
/// on: the position after them, or the first error. Node numbers are not checked.
pub open spec fn demands_from(toks: Seq<Seq<u8>>, pos: int, i: int, n: int) -> Result<
    int,
    InstanceError,
>
    decreases n + 1 - i,
{
    if i > n {
        Ok(pos)
    } else if pos < 0 || pos + 1 >= toks.len() {
        Err(InstanceError::EndOfInput)
    } else if !is_float_text(toks[pos + 1]) {
        Err(InstanceError::BadValue((pos + 1) as usize))
    } else {
        demands_from(toks, pos + 2, i + 1, n)
    }
}

/// Where the data of the body lie: the coordinates of node `i` are the tokens
/// `coordinates_start + 3 i + 1` and `+ 2`, its demand the token
/// `demands_start + 2 i + 1`.
#[derive(Clone, Copy, PartialEq, Eq, Structural)]
pub struct InstanceBody {
    pub coordinates_start: usize,
    pub demands_start: usize,
}

/// The body of an instance with `n` clients, from token `start` on.
pub open spec fn instance_body(toks: Seq<Seq<u8>>, start: int, n: int) -> Result<
    InstanceBody,
    InstanceError,
> {
    match coordinates_from(toks, start, 0, n) {
        Err(e) => Err(e),
        Ok(p) => if p >= toks.len() {
            Err(InstanceError::EndOfInput)
        } else if toks[p] != word_demand_section() {
            Err(InstanceError::UnexpectedData(p as usize))
        } else {
            match demands_from(toks, p + 1, 0, n) {
                Err(e) => Err(e),
                Ok(q) => if q + 3 >= toks.len() {
                    Err(InstanceError::EndOfInput)
                } else if toks[q] != word_depot_section() {
                    Err(InstanceError::UnexpectedData(q as usize))
                } else if toks[q + 1] != word_one() {
                    Err(InstanceError::DepotIndex((q + 1) as usize))
                } else if toks[q + 3] != word_eof() {
                    Err(InstanceError::UnexpectedData((q + 3) as usize))
                } else {
                    Ok(InstanceBody { coordinates_start: start as usize, demands_start: (p + 1) as usize })
                },
            }
        },
    }
}

/// Reads the body of an instance with `nb_clients` clients from its tokens.
pub fn read_body(content: &[u8], toks: &Vec<(usize, usize)>, start: usize, nb_clients: usize) -> (r: Result<
    InstanceBody,
    InstanceError,
>)
    requires
        ranges_in_text(content@, toks@),
        nb_clients < usize::MAX,
    ensures
        r == instance_body(token_texts(content@, toks@), start as int, nb_clients as int),
{
    let ghost texts: Seq<Seq<u8>> = token_texts(content@, toks@);
    let len: usize = toks.len();
    let mut pos: usize = start;
    let mut i: usize = 0;
    while i <= nb_clients
        invariant
            len == toks@.len() == texts.len(),
            texts == token_texts(content@, toks@),
            ranges_in_text(content@, toks@),
            nb_clients < usize::MAX,
            i <= nb_clients + 1,
            start <= pos,
            coordinates_from(texts, start as int, 0, nb_clients as int) == coordinates_from(
                texts,
                pos as int,
                i as int,
                nb_clients as int,
            ),
        decreases nb_clients + 1 - i,
    {
        if pos >= len {
            return Err(InstanceError::EndOfInput);
        }
        let number: Option<i64> = parse_i64_text(slice_of(content, toks[pos]));
        match number {
            None => {
                return Err(InstanceError::BadValue(pos));
            },
            Some(number) => {
                if pos + 1 >= len {
                    return Err(InstanceError::EndOfInput);
                }
                if !is_float_text_exec(slice_of(content, toks[pos + 1])) {
                    return Err(InstanceError::BadValue(pos + 1));
                }
                if pos + 2 >= len {
                    return Err(InstanceError::EndOfInput);
                }
                if !is_float_text_exec(slice_of(content, toks[pos + 2])) {
                    return Err(InstanceError::BadValue(pos + 2));
                }
                if number < 1 || (number - 1) as u64 != i as u64 {
                    proof {
                        assert(number != i + 1);
                    }
                    return Err(InstanceError::NodeNumbering);
                }
            },
        }
        pos = pos + 3;
        i = i + 1;
    }
    let p: usize = pos;
    if p >= len {
        return Err(InstanceError::EndOfInput);
    }
    if !is_demand_section(content, toks[p]) {
        return Err(InstanceError::UnexpectedData(p));
    }
    let mut q: usize = p + 1;
    let mut i: usize = 0;
    while i <= nb_clients
        invariant
            len == toks@.len() == texts.len(),
            texts == token_texts(content@, toks@),
            ranges_in_text(content@, toks@),
            nb_clients < usize::MAX,
            i <= nb_clients + 1,
            p < q <= len,
            p < len,
            texts[p as int] == word_demand_section(),
            coordinates_from(texts, start as int, 0, nb_clients as int) == Ok::<int, InstanceError>(
                p as int,
            ),
            demands_from(texts, p + 1, 0, nb_clients as int) == demands_from(
                texts,
                q as int,
                i as int,
                nb_clients as int,
            ),
        decreases nb_clients + 1 - i,
    {
        if len - q <= 1 {
            return Err(InstanceError::EndOfInput);
        }
        if !is_float_text_exec(slice_of(content, toks[q + 1])) {
            return Err(InstanceError::BadValue(q + 1));
        }
        q = q + 2;
        i = i + 1;
    }
    if len - q <= 3 {
        return Err(InstanceError::EndOfInput);
    }
    if !is_depot_section(content, toks[q]) {
        return Err(InstanceError::UnexpectedData(q));
    }
    if !is_one(content, toks[q + 1]) {
        return Err(InstanceError::DepotIndex(q + 1));
    }
    if !is_eof(content, toks[q + 3]) {
        return Err(InstanceError::UnexpectedData(q + 3));
    }
    Ok(InstanceBody { coordinates_start: start, demands_start: p + 1 })
}

} // verus!
