//! The quality gate: the rules a tile must pass before a room accepts it.

use vstd::prelude::*;
use vstd::utf8::*;

use crate::graph::{lemma_sorted_unique, strictly_sorted};
use crate::text::{
    byte_len, decimal, decimal_text, join2, lemma_text_lt_order, lowercase, lowercase_chars,
    same_text, text_less, text_lt, trim_chars, trimmed,
};
use crate::tile::{blank, content_hash_of, fault_message, first_fault, Tile, TileView};

verus! {

/// Gate decision after evaluating a tile.
#[derive(Debug, Clone)]
pub enum GateDecision {
    Accept,
    Reject(String),
}

impl GateDecision {
    /// `None` for acceptance, the reason for a rejection.
    pub open spec fn view(&self) -> Option<Seq<char>> {
        match self {
            GateDecision::Accept => None,
            GateDecision::Reject(r) => Some(r@),
        }
    }

    /// Whether the decision is an acceptance.
    pub fn is_accept(&self) -> (b: bool)
        ensures
            b == (self@ is None),
    {
        match self {
            GateDecision::Accept => true,
            GateDecision::Reject(_) => false,
        }
    }
}

/// Configuration for the quality gate.
#[derive(Debug, Clone)]
pub struct GateConfig {
    /// Reject absolute claims ("always", "never", etc.)
    pub reject_absolute_claims: bool,
    /// Reject duplicate tiles (checked against the content hashes given)
    pub reject_duplicates: bool,
    /// Minimum answer length, in bytes after trimming
    pub min_answer_length: usize,
    /// Minimum question length, in bytes after trimming
    pub min_question_length: usize,
    /// Reject if required fields are missing
    pub reject_missing_fields: bool,
    /// Custom absolute claim patterns (in addition to defaults; a pattern
    /// that does not compile matches nothing)
    pub extra_absolute_patterns: Vec<String>,
}

impl GateConfig {
    /// The default configuration.
    pub open spec fn is_default(&self) -> bool {
        &&& self.reject_absolute_claims
        &&& self.reject_duplicates
        &&& self.min_answer_length == 10
        &&& self.min_question_length == 3
        &&& self.reject_missing_fields
        &&& self.extra_absolute_patterns@.len() == 0
    }

    /// A copy of the configuration.
    pub fn duplicate(&self) -> (c: Self)
        ensures
            c.reject_absolute_claims == self.reject_absolute_claims,
            c.reject_duplicates == self.reject_duplicates,
            c.min_answer_length == self.min_answer_length,
            c.min_question_length == self.min_question_length,
            c.reject_missing_fields == self.reject_missing_fields,
            c.extra_absolute_patterns.deep_view() == self.extra_absolute_patterns.deep_view(),
    {
        let mut extra: Vec<String> = Vec::new();
        let mut i: usize = 0;
        while i < self.extra_absolute_patterns.len()
            invariant
                i <= self.extra_absolute_patterns.len(),
                extra.len() == i,
                forall|j: int| 0 <= j < i ==> #[trigger] extra@[j]@ == self.extra_absolute_patterns@[j]@,
            decreases self.extra_absolute_patterns.len() - i,
        {
            extra.push(self.extra_absolute_patterns[i].clone());
            i = i + 1;
        }
        assert(extra.deep_view() =~= self.extra_absolute_patterns.deep_view());
        GateConfig {
            reject_absolute_claims: self.reject_absolute_claims,
            reject_duplicates: self.reject_duplicates,
            min_answer_length: self.min_answer_length,
            min_question_length: self.min_question_length,
            reject_missing_fields: self.reject_missing_fields,
            extra_absolute_patterns: extra,
        }
    }
}

impl Default for GateConfig {
    fn default() -> (c: Self)
        ensures
            c.is_default(),
    {
        GateConfig {
            reject_absolute_claims: true,
            reject_duplicates: true,
            min_answer_length: 10,
            min_question_length: 3,
            reject_missing_fields: true,
            extra_absolute_patterns: Vec::new(),
        }
    }
}

/// A match of a regular expression: byte offsets into the haystack and the
/// matched text.
pub struct PatternMatch {
    pub start: usize,
    pub end: usize,
    pub text: String,
}

/// The matches of `pattern` in `haystack` as `regex::Regex::find_iter`
/// yields them (successive non-overlapping leftmost-first matches), or
/// `None` when the pattern does not compile.
pub uninterp spec fn regex_matches(pattern: Seq<char>, haystack: Seq<char>) -> Option<
    Seq<(usize, usize, Seq<char>)>,
>;

pub open spec fn match_views(ms: Seq<PatternMatch>) -> Seq<(usize, usize, Seq<char>)> {
    ms.map_values(|m: PatternMatch| (m.start, m.end, m.text@))
}

/// `regex::Regex::new(pattern)` then `find_iter(haystack)`: every match as
/// its start and end byte offsets and its text. As the crate documents,
/// each offset falls on a character boundary, `start <= end`, and the text
/// is the haystack between them. The contract names the matches; it states
/// nothing of regular-expression semantics.
#[verifier::external_body]
fn find_pattern_matches(pattern: &str, haystack: &str) -> (r: Option<Vec<PatternMatch>>)
    ensures
        r is Some == regex_matches(pattern@, haystack@) is Some,
        r matches Some(ms) ==> match_views(ms@) == regex_matches(pattern@, haystack@)->0,
        r matches Some(ms) ==> forall|i: int|
            0 <= i < ms@.len() ==> {
                &&& #[trigger] ms@[i].start <= ms@[i].end
                &&& ms@[i].end <= encode_utf8(haystack@).len()
                &&& is_char_boundary(encode_utf8(haystack@), ms@[i].start as int)
                &&& encode_utf8(ms@[i].text@) == encode_utf8(haystack@).subrange(
                    ms@[i].start as int,
                    ms@[i].end as int,
                )
            },
{
    match regex::Regex::new(pattern) {
        Ok(re) => Some(
            re.find_iter(haystack).map(
                |m| PatternMatch { start: m.start(), end: m.end(), text: m.as_str().to_string() },
            ).collect(),
        ),
        Err(_) => None,
    }
}

/// The absolute-claim patterns.
pub open spec fn absolute_pattern_texts() -> Seq<Seq<char>> {
    seq![
        r"\balways\b"@,
        r"\bnever\b"@,
        r"\bimpossible\b"@,
        r"\bguaranteed\b"@,
        r"\b100%\b"@,
        r"\beveryone\b"@,
        r"\bno one\b"@,
        r"\ball\s+\w+\s+(are|is|will|can|should|must)\b"@,
        r"\bnone\s+(of|are|is|will)\b"@,
    ]
}

/// Absolute claim patterns to detect.
pub fn absolute_patterns() -> (v: Vec<&'static str>)
    ensures
        v@.map_values(|p: &'static str| p@) == absolute_pattern_texts(),
{
    let v = vec![
        r"\balways\b",
        r"\bnever\b",
        r"\bimpossible\b",
        r"\bguaranteed\b",
        r"\b100%\b",
        r"\beveryone\b",
        r"\bno one\b",
        r"\ball\s+\w+\s+(are|is|will|can|should|must)\b",
        r"\bnone\s+(of|are|is|will)\b",
    ];
    assert(v@.map_values(|p: &'static str| p@) =~= absolute_pattern_texts());
    v
}

/// Number of quote bytes (`"` or `'`).
pub open spec fn quote_count(b: Seq<u8>) -> nat
    decreases b.len(),
{
    if b.len() == 0 {
        0
    } else {
        quote_count(b.drop_last()) + if b.last() == 0x22 || b.last() == 0x27 {
            1nat
        } else {
            0nat
        }
    }
}

/// Position `position` (a byte offset) of `text` lies inside quotes: an odd
/// number of quote characters come before it.
pub open spec fn in_quotes(text: Seq<char>, position: int) -> bool {
    quote_count(encode_utf8(text).subrange(0, position)) % 2 == 1
}

/// Check if text is inside quotes (heuristic: odd number of quotes before position).
pub fn is_in_quotes(text: &str, position: usize) -> (b: bool)
    requires
        is_char_boundary(encode_utf8(text@), position as int),
    ensures
        b == in_quotes(text@, position as int),
{
    let bytes = text.as_bytes();
    proof {
        broadcast use vstd::utf8::encode_utf8_valid_utf8;
        assert(valid_utf8(encode_utf8(text@)));
        lemma_boundary_in_range(encode_utf8(text@), position as int);
    }
    let mut count: usize = 0;
    let mut i: usize = 0;
    while i < position
        invariant
            bytes@ == encode_utf8(text@),
            position <= bytes.len(),
            i <= position,
            count == quote_count(bytes@.subrange(0, i as int)),
            count <= i,
        decreases position - i,
    {
        assert(bytes@.subrange(0, i + 1).drop_last() =~= bytes@.subrange(0, i as int));
        if bytes[i] == 0x22 || bytes[i] == 0x27 {
            count = count + 1;
        }
        i = i + 1;
    }
    count % 2 == 1
}

proof fn lemma_boundary_in_range(b: Seq<u8>, i: int)
    requires
        valid_utf8(b),
        is_char_boundary(b, i),
    ensures
        0 <= i <= b.len(),
    decreases b.len(),
{
    if i != 0 && !(i < 0 || b.len() < i) {
    }
}

/// The texts of the matches not inside quotes, in match order.
pub open spec fn unquoted_texts(hay: Seq<char>, ms: Seq<(usize, usize, Seq<char>)>) -> Seq<Seq<char>>
    decreases ms.len(),
{
    if ms.len() == 0 {
        seq![]
    } else {
        unquoted_texts(hay, ms.drop_last()) + if !in_quotes(hay, ms.last().0 as int) {
            seq![ms.last().2]
        } else {
            seq![]
        }
    }
}

/// The unquoted matches of one pattern in `hay`.
pub open spec fn pattern_claims(hay: Seq<char>, pattern: Seq<char>) -> Seq<Seq<char>> {
    match regex_matches(pattern, hay) {
        Some(ms) => unquoted_texts(hay, ms),
        None => seq![],
    }
}

/// The unquoted matches of the first `k` of `patterns`, pattern by pattern.
pub open spec fn raw_claims(hay: Seq<char>, patterns: Seq<Seq<char>>, k: int) -> Seq<Seq<char>>
    decreases k,
{
    if k <= 0 {
        seq![]
    } else {
        raw_claims(hay, patterns, k - 1) + pattern_claims(hay, patterns[k - 1])
    }
}

/// The order of `String`, as a relation.
pub open spec fn text_order() -> spec_fn(Seq<char>, Seq<char>) -> bool {
    |a: Seq<char>, b: Seq<char>| text_lt(a, b)
}

/// The distinct elements of `s` in increasing order (what sorting and then
/// removing adjacent duplicates gives).
pub open spec fn sorted_distinct(s: Seq<Seq<char>>) -> Seq<Seq<char>> {
    choose|r: Seq<Seq<char>>|
        strictly_sorted(r, text_order()) && forall|x: Seq<char>| r.contains(x) <==> s.contains(x)
}

/// The claims that `patterns` find in `text`: the distinct texts, in the
/// lower-cased text and outside quotes, that some pattern matches, in order.
pub open spec fn claims_matching(text: Seq<char>, patterns: Seq<Seq<char>>) -> Seq<Seq<char>> {
    sorted_distinct(raw_claims(lowercase_chars(text), patterns, patterns.len() as int))
}

/// `x` put into the strictly increasing list `r`, unless it is there.
pub open spec fn sorted_insert(r: Seq<Seq<char>>, x: Seq<char>) -> Seq<Seq<char>>
    decreases r.len(),
{
    if r.len() == 0 {
        seq![x]
    } else if r[0] == x {
        r
    } else if text_lt(x, r[0]) {
        seq![x] + r
    } else {
        seq![r[0]] + sorted_insert(r.drop_first(), x)
    }
}

/// The elements of `s`, inserted one by one into a strictly increasing list.
pub open spec fn sorted_of(s: Seq<Seq<char>>) -> Seq<Seq<char>>
    decreases s.len(),
{
    if s.len() == 0 {
        seq![]
    } else {
        sorted_insert(sorted_of(s.drop_last()), s.last())
    }
}

proof fn lemma_sorted_insert(r: Seq<Seq<char>>, x: Seq<char>)
    requires
        strictly_sorted(r, text_order()),
    ensures
        strictly_sorted(sorted_insert(r, x), text_order()),
        forall|y: Seq<char>| #[trigger] sorted_insert(r, x).contains(y) <==> (r.contains(y) || y == x),
    decreases r.len(),
{
    lemma_text_lt_order();
    let lt = text_order();
    let out = sorted_insert(r, x);
    if r.len() == 0 {
        assert(out[0] == x);
    } else if r[0] == x {
        assert(r.contains(r[0]));
    } else if text_lt(x, r[0]) {
        assert forall|p: int, q: int| 0 <= p < q < out.len() implies lt(#[trigger] out[p], #[trigger] out[q]) by {
            if p == 0 {
                if q > 1 {
                    assert(lt(r[0], r[q - 1]));
                }
                assert(out[q] == r[q - 1]);
            } else {
                assert(lt(r[p - 1], r[q - 1]));
            }
        }
        assert forall|y: Seq<char>| out.contains(y) <==> (r.contains(y) || y == x) by {
            if out.contains(y) {
                let j = choose|j: int| 0 <= j < out.len() && out[j] == y;
                if j > 0 {
                    assert(r[j - 1] == y);
                }
            }
            if r.contains(y) {
                let j = choose|j: int| 0 <= j < r.len() && r[j] == y;
                assert(out[j + 1] == y);
            }
            if y == x {
                assert(out[0] == y);
            }
        }
    } else {
        let rest = r.drop_first();
        assert(strictly_sorted(rest, lt)) by {
            assert forall|p: int, q: int| 0 <= p < q < rest.len() implies lt(#[trigger] rest[p], #[trigger] rest[q]) by {
                assert(lt(r[p + 1], r[q + 1]));
            }
        }
        lemma_sorted_insert(rest, x);
        let rec = sorted_insert(rest, x);
        assert(text_lt(r[0], x));
        assert forall|y: Seq<char>| rec.contains(y) implies lt(r[0], y) by {
            if y != x {
                assert(rest.contains(y));
                let j = choose|j: int| 0 <= j < rest.len() && rest[j] == y;
                assert(rest[j] == r[j + 1]);
                assert(lt(r[0], r[j + 1]));
            } else {
                assert(text_lt(r[0], x));
            }
        }
        assert forall|p: int, q: int| 0 <= p < q < out.len() implies lt(#[trigger] out[p], #[trigger] out[q]) by {
            assert(out[q] == rec[q - 1]);
            if p == 0 {
                assert(rec.contains(rec[q - 1]));
            } else {
                assert(out[p] == rec[p - 1]);
            }
        }
        assert forall|y: Seq<char>| out.contains(y) <==> (r.contains(y) || y == x) by {
            if out.contains(y) {
                let j = choose|j: int| 0 <= j < out.len() && out[j] == y;
                if j > 0 {
                    assert(rec[j - 1] == y);
                    assert(rec.contains(y));
                    if y != x {
                        assert(rest.contains(y));
                        let i = choose|i: int| 0 <= i < rest.len() && rest[i] == y;
                        assert(rest[i] == r[i + 1]);
                        assert(r.contains(y));
                    }
                } else {
                    assert(r[0] == y);
                }
            }
            if r.contains(y) {
                let j = choose|j: int| 0 <= j < r.len() && r[j] == y;
                if j == 0 {
                    assert(out[0] == y);
                } else {
                    assert(rest[j - 1] == y);
                    assert(rest.contains(y));
                    assert(rec.contains(y));
                    let i = choose|i: int| 0 <= i < rec.len() && rec[i] == y;
                    assert(out[i + 1] == y);
                }
            }
            if y == x {
                assert(rec.contains(y));
                let i = choose|i: int| 0 <= i < rec.len() && rec[i] == y;
                assert(out[i + 1] == y);
            }
        }
    }
}

proof fn lemma_sorted_of(s: Seq<Seq<char>>)
    ensures
        strictly_sorted(sorted_of(s), text_order()),
        forall|y: Seq<char>| sorted_of(s).contains(y) <==> s.contains(y),
    decreases s.len(),
{
    if s.len() > 0 {
        let s1 = s.drop_last();
        lemma_sorted_of(s1);
        lemma_sorted_insert(sorted_of(s1), s.last());
        assert forall|y: Seq<char>| sorted_of(s).contains(y) <==> s.contains(y) by {
            if s1.contains(y) {
                let j = choose|j: int| 0 <= j < s1.len() && s1[j] == y;
                assert(s[j] == y);
            }
            if s.contains(y) {
                let j = choose|j: int| 0 <= j < s.len() && s[j] == y;
                if j < s.len() - 1 {
                    assert(s1[j] == y);
                }
            }
            assert(s.contains(s.last()));
        }
    } else {
        assert(sorted_of(s) =~= Seq::<Seq<char>>::empty());
    }
}

/// Every list of texts has its distinct elements in increasing order:
/// `sorted_distinct(s)` is strictly increasing and holds exactly the
/// elements of `s`.
pub proof fn lemma_sorted_distinct(s: Seq<Seq<char>>)
    ensures
        strictly_sorted(sorted_distinct(s), text_order()),
        forall|y: Seq<char>| sorted_distinct(s).contains(y) <==> s.contains(y),
{
    lemma_sorted_of(s);
    assert(strictly_sorted(sorted_of(s), text_order()) && forall|y: Seq<char>|
        sorted_of(s).contains(y) <==> s.contains(y));
}

/// The absolute claims found in `text` by the built-in patterns.
pub open spec fn claims_in(text: Seq<char>) -> Seq<Seq<char>> {
    claims_matching(text, absolute_pattern_texts())
}

/// The patterns that a configuration checks answers against: the built-in
/// ones, then its own.
pub open spec fn gate_patterns(cfg: &GateConfig) -> Seq<Seq<char>> {
    absolute_pattern_texts() + cfg.extra_absolute_patterns.deep_view()
}

/// Inserts `x` into a strictly increasing list, unless it is there.
pub fn insert_sorted(v: &mut Vec<String>, x: String)
    requires
        strictly_sorted(old(v).deep_view(), text_order()),
    ensures
        strictly_sorted(final(v).deep_view(), text_order()),
        forall|y: Seq<char>| final(v).deep_view().contains(y) <==> (old(v).deep_view().contains(y) || y
            == x@),
{
    proof {
        lemma_text_lt_order();
    }
    let ghost before = v.deep_view();
    let mut i: usize = 0;
    while i < v.len() && text_less(v[i].as_str(), x.as_str())
        invariant
            v.deep_view() == before,
            i <= v.len(),
            forall|j: int| 0 <= j < i ==> text_lt(#[trigger] before[j], x@),
        decreases v.len() - i,
    {
        i = i + 1;
    }
    if i < v.len() && same_text(v[i].as_str(), x.as_str()) {
        assert(before[i as int] == x@);
        return;
    }
    proof {
        if i < v.len() {
            assert(before[i as int] != x@);
            assert(!text_lt(before[i as int], x@));
            assert(text_lt(x@, before[i as int]));
        }
    }
    v.insert(i, x);
    proof {
        let after = v.deep_view();
        assert(after =~= before.insert(i as int, x@));
        let lt = text_order();
        assert forall|p: int, q: int| 0 <= p < q < after.len() implies lt(
            #[trigger] after[p],
            #[trigger] after[q],
        ) by {
            if q < i {
                assert(lt(before[p], before[q]));
            } else if q == i {
                assert(after[p] == before[p]);
            } else if p < i {
                assert(lt(before[p], before[q - 1]));
            } else if p == i {
                if q - 1 > i {
                    assert(lt(before[i as int], before[q - 1]));
                }
            } else {
                assert(lt(before[p - 1], before[q - 1]));
            }
        }
        assert forall|y: Seq<char>| after.contains(y) <==> (before.contains(y) || y == x@) by {
            if y == x@ {
                assert(after[i as int] == y);
            }
            if before.contains(y) {
                let j = choose|j: int| 0 <= j < before.len() && before[j] == y;
                if j < i {
                    assert(after[j] == y);
                } else {
                    assert(after[j + 1] == y);
                }
            }
            if after.contains(y) {
                let j = choose|j: int| 0 <= j < after.len() && after[j] == y;
                if j < i {
                    assert(before[j] == y);
                } else if j > i {
                    assert(before[j - 1] == y);
                }
            }
        }
    }
}

/// Detect absolute claims in text, respecting quoted context: the distinct
/// matched texts in sorted order.
pub fn detect_absolute_claims(text: &str) -> (found: Vec<String>)
    ensures
        found.deep_view() == claims_in(text@),
        strictly_sorted(found.deep_view(), text_order()),
        forall|y: Seq<char>|
            found.deep_view().contains(y) <==> raw_claims(
                lowercase_chars(text@),
                absolute_pattern_texts(),
                absolute_pattern_texts().len() as int,
            ).contains(y),
{
    let patterns = absolute_patterns();
    detect_claims(text, &patterns)
}

/// The claims that `patterns` find in `text`, outside quotes: the distinct
/// matched texts in sorted order.
pub fn detect_claims(text: &str, patterns: &Vec<&str>) -> (found: Vec<String>)
    ensures
        found.deep_view() == claims_matching(text@, patterns@.map_values(|p: &str| p@)),
        strictly_sorted(found.deep_view(), text_order()),
        forall|y: Seq<char>|
            found.deep_view().contains(y) <==> raw_claims(
                lowercase_chars(text@),
                patterns@.map_values(|p: &str| p@),
                patterns@.len() as int,
            ).contains(y),
{
    let lower = lowercase(text);
    let ghost hay = lower@;
    let ghost pats = patterns@.map_values(|p: &str| p@);
    let mut found: Vec<String> = Vec::new();
    let ghost mut raw: Seq<Seq<char>> = seq![];
    let mut k: usize = 0;
    while k < patterns.len()
        invariant
            hay == lower@,
            pats == patterns@.map_values(|p: &str| p@),
            pats.len() == patterns.len(),
            k <= patterns.len(),
            raw == raw_claims(hay, pats, k as int),
            strictly_sorted(found.deep_view(), text_order()),
            forall|y: Seq<char>| found.deep_view().contains(y) <==> raw.contains(y),
        decreases patterns.len() - k,
    {
        assert(patterns@[k as int]@ == pats[k as int]);
        let ghost raw_before = raw;
        match find_pattern_matches(patterns[k], lower.as_str()) {
            Some(ms) => {
                let ghost mv = match_views(ms@);
                let mut j: usize = 0;
                let ghost mut part: Seq<Seq<char>> = seq![];
                while j < ms.len()
                    invariant
                        hay == lower@,
                        mv == match_views(ms@),
                        j <= ms.len(),
                        forall|i: int|
                            0 <= i < ms@.len() ==> {
                                &&& #[trigger] ms@[i].start <= ms@[i].end
                                &&& ms@[i].end <= encode_utf8(hay).len()
                                &&& is_char_boundary(encode_utf8(hay), ms@[i].start as int)
                            },
                        part == unquoted_texts(hay, mv.subrange(0, j as int)),
                        strictly_sorted(found.deep_view(), text_order()),
                        forall|y: Seq<char>| found.deep_view().contains(y) <==> (raw_before.contains(
                            y,
                        ) || part.contains(y)),
                    decreases ms.len() - j,
                {
                    let m = &ms[j];
                    assert(mv.subrange(0, j + 1).drop_last() =~= mv.subrange(0, j as int));
                    assert(mv[j as int] == (m.start, m.end, m.text@));
                    let quoted = is_in_quotes(lower.as_str(), m.start);
                    if !quoted {
                        let ghost f0 = found.deep_view();
                        let ghost p0 = part;
                        insert_sorted(&mut found, m.text.clone());
                        proof {
                            part = part + seq![m.text@];
                            assert forall|y: Seq<char>| found.deep_view().contains(y) <==> (
                            raw_before.contains(y) || part.contains(y)) by {
                                if part.contains(y) {
                                    let i = choose|i: int| 0 <= i < part.len() && part[i] == y;
                                    if i < p0.len() {
                                        assert(p0[i] == y);
                                    }
                                }
                                if p0.contains(y) {
                                    let i = choose|i: int| 0 <= i < p0.len() && p0[i] == y;
                                    assert(part[i] == y);
                                }
                                if y == m.text@ {
                                    assert(part[p0.len() as int] == y);
                                }
                            }
                        }
                    } else {
                        proof {
                            part = part + Seq::<Seq<char>>::empty();
                            assert(part =~= unquoted_texts(hay, mv.subrange(0, j as int)));
                        }
                    }
                    j = j + 1;
                }
                assert(mv.subrange(0, ms.len() as int) =~= mv);
                proof {
                    raw = raw_before + part;
                    assert forall|y: Seq<char>| found.deep_view().contains(y) <==> raw.contains(y) by {
                        if raw.contains(y) {
                            let i = choose|i: int| 0 <= i < raw.len() && raw[i] == y;
                            if i < raw_before.len() {
                                assert(raw_before[i] == y);
                            } else {
                                assert(part[i - raw_before.len()] == y);
                            }
                        }
                        if raw_before.contains(y) {
                            let i = choose|i: int| 0 <= i < raw_before.len() && raw_before[i] == y;
                            assert(raw[i] == y);
                        }
                        if part.contains(y) {
                            let i = choose|i: int| 0 <= i < part.len() && part[i] == y;
                            assert(raw[i + raw_before.len()] == y);
                        }
                    }
                }
            },
            None => {
                proof {
                    raw = raw_before + Seq::<Seq<char>>::empty();
                    assert(raw =~= raw_before);
                }
            },
        }
        k = k + 1;
    }
    proof {
        lemma_text_lt_order();
        let target = claims_matching(text@, pats);
        assert(strictly_sorted(found.deep_view(), text_order()));
        assert(exists|r: Seq<Seq<char>>|
            strictly_sorted(r, text_order()) && forall|x: Seq<char>| r.contains(x) <==> raw.contains(
                x,
            ));
        lemma_sorted_unique(found.deep_view(), target, text_order());
    }
    found
}

/// The texts joined with `sep` between consecutive ones.
pub open spec fn joined(list: Seq<Seq<char>>, sep: Seq<char>) -> Seq<char>
    decreases list.len(),
{
    if list.len() == 0 {
        seq![]
    } else if list.len() == 1 {
        list[0]
    } else {
        joined(list.drop_last(), sep) + sep + list.last()
    }
}

/// `[String]::join`.
pub fn join_texts(list: &Vec<String>, sep: &str) -> (r: String)
    ensures
        r@ == joined(list.deep_view(), sep@),
{
    let mut r = String::new();
    let mut i: usize = 0;
    while i < list.len()
        invariant
            i <= list.len(),
            r@ == joined(list.deep_view().subrange(0, i as int), sep@),
        decreases list.len() - i,
    {
        let ghost pre = list.deep_view().subrange(0, i as int);
        let ghost post = list.deep_view().subrange(0, i + 1);
        assert(post.drop_last() =~= pre);
        if i == 0 {
            r = String::from_str(list[i].as_str());
        } else {
            r.append(sep);
            r.append(list[i].as_str());
        }
        i = i + 1;
    }
    assert(list.deep_view().subrange(0, list.len() as int) =~= list.deep_view());
    r
}

/// Length in bytes of the text after trimming white space (as `str::len`
/// reports it; a string's length always fits in `usize`).
pub open spec fn trimmed_len(s: Seq<char>) -> usize {
    byte_len(trim_chars(s)) as usize
}

/// The first gate rule a tile breaks, as the reason for rejecting it, or
/// `None` when the tile passes:
/// 1. when configured, the tile must pass validation;
/// 2. the trimmed question must have at least the minimum length;
/// 3. the trimmed answer must have at least the minimum length;
/// 4. when configured, the answer must hold no absolute claim.
pub open spec fn gate_verdict(cfg: &GateConfig, t: TileView) -> Option<Seq<char>> {
    if cfg.reject_missing_fields && first_fault(t) is Some {
        Some("missing/invalid fields: "@ + fault_message(first_fault(t)->0))
    } else if trimmed_len(t.question) < cfg.min_question_length {
        Some(too_short_message("question"@, trimmed_len(t.question) as nat, cfg.min_question_length as nat))
    } else if trimmed_len(t.answer) < cfg.min_answer_length {
        Some(too_short_message("answer"@, trimmed_len(t.answer) as nat, cfg.min_answer_length as nat))
    } else if cfg.reject_absolute_claims && claims_matching(t.answer, gate_patterns(cfg)).len() > 0 {
        Some("absolute claims detected: "@ + joined(claims_matching(t.answer, gate_patterns(cfg)), ", "@))
    } else {
        None
    }
}

/// The absolute-claims rule reads the answer alone, and the question
/// matters only through the rules on questions: two tiles that differ only
/// in their question (and in metadata the rules do not read), both
/// questions not blank and long enough, get the same verdict, whatever
/// claims the questions hold.
pub proof fn lemma_verdict_ignores_question_text(cfg: &GateConfig, a: TileView, b: TileView)
    requires
        a.domain == b.domain,
        a.answer == b.answer,
        a.source == b.source,
        a.confidence == b.confidence,
        a.provenance.0 == b.provenance.0,
        !blank(a.question),
        !blank(b.question),
        trimmed_len(a.question) >= cfg.min_question_length,
        trimmed_len(b.question) >= cfg.min_question_length,
    ensures
        gate_verdict(cfg, a) == gate_verdict(cfg, b),
{
}

/// The quality gate's verdict when the content hashes of the tiles already stored
/// are known: the rules above, then (when configured) the tile's content
/// hash must not be among them.
pub open spec fn gate_verdict_with_hashes(cfg: &GateConfig, t: TileView, existing: Seq<Seq<char>>) -> Option<
    Seq<char>,
> {
    match gate_verdict(cfg, t) {
        Some(reason) => Some(reason),
        None => if cfg.reject_duplicates && existing.contains(content_hash_of(t)) {
            Some("duplicate tile (matching content hash)"@)
        } else {
            None
        },
    }
}

/// The reason given when a text is shorter than the minimum: "<what> too
/// short (<len> < <min>)".
pub open spec fn too_short_message(what: Seq<char>, len: nat, min: nat) -> Seq<char> {
    what + " too short ("@ + decimal(len) + " < "@ + decimal(min) + ")"@
}

/// Message for a length rule.
fn too_short(what: &str, len: usize, min: usize) -> (r: String)
    ensures
        r@ == too_short_message(what@, len as nat, min as nat),
{
    let a = join2(what, " too short (");
    let b = decimal_text(len);
    let c = join2(a.as_str(), b.as_str());
    let d = join2(c.as_str(), " < ");
    let e = decimal_text(min);
    let f = join2(d.as_str(), e.as_str());
    let r = join2(f.as_str(), ")");
    assert(r@ =~= what@ + " too short ("@ + decimal(len as nat) + " < "@ + decimal(min as nat) + ")"@);
    r
}

/// The quality gate: evaluates tiles before acceptance.
#[derive(Debug, Clone)]
pub struct Gate {
    pub config: GateConfig,
}

impl Gate {
    /// The patterns the quality gate checks answers against.
    fn patterns(&self) -> (v: Vec<&str>)
        ensures
            v@.map_values(|p: &str| p@) == gate_patterns(&self.config),
    {
        let mut v: Vec<&str> = absolute_patterns();
        let ghost base = v@.map_values(|p: &str| p@);
        let extra = &self.config.extra_absolute_patterns;
        let mut i: usize = 0;
        while i < extra.len()
            invariant
                base == absolute_pattern_texts(),
                i <= extra.len(),
                v@.map_values(|p: &str| p@) == base + extra.deep_view().subrange(0, i as int),
            decreases extra.len() - i,
        {
            let ghost before = v@.map_values(|p: &str| p@);
            v.push(extra[i].as_str());
            assert(v@.map_values(|p: &str| p@) =~= before.push(extra[i as int]@));
            assert(extra.deep_view().subrange(0, i + 1) =~= extra.deep_view().subrange(0, i as int).push(
                extra[i as int]@,
            ));
            i = i + 1;
        }
        assert(extra.deep_view().subrange(0, extra.len() as int) =~= extra.deep_view());
        v
    }

    pub fn new(config: GateConfig) -> (g: Self)
        ensures
            g.config == config,
    {
        Gate { config }
    }

    pub fn with_defaults() -> (g: Self)
        ensures
            g.config.is_default(),
    {
        Gate::new(GateConfig::default())
    }

    /// Evaluate a tile through all gate rules: Accept if all rules pass, or
    /// the first rejection with its reason.
    pub fn evaluate(&self, tile: &Tile) -> (d: GateDecision)
        ensures
            d@ == gate_verdict(&self.config, tile@),
    {
        if self.config.reject_missing_fields {
            match tile.validate() {
                Err(e) => {
                    let m = e.message();
                    return GateDecision::Reject(join2("missing/invalid fields: ", m.as_str()));
                },
                Ok(()) => {},
            }
        }
        let qlen = trimmed(tile.question.as_str()).len();
        if qlen < self.config.min_question_length {
            let r = too_short("question", qlen, self.config.min_question_length);
            return GateDecision::Reject(r);
        }
        let alen = trimmed(tile.answer.as_str()).len();
        if alen < self.config.min_answer_length {
            let r = too_short("answer", alen, self.config.min_answer_length);
            return GateDecision::Reject(r);
        }
        if self.config.reject_absolute_claims {
            let patterns = self.patterns();
            let claims = detect_claims(tile.answer.as_str(), &patterns);
            if claims.len() > 0 {
                let list = join_texts(&claims, ", ");
                return GateDecision::Reject(join2("absolute claims detected: ", list.as_str()));
            }
        }
        GateDecision::Accept
    }

    /// Evaluate a tile, also checking for duplicates against existing hashes.
    pub fn evaluate_with_hashes(&self, tile: &Tile, existing_hashes: &[&str]) -> (d: GateDecision)
        ensures
            d@ == gate_verdict_with_hashes(
                &self.config,
                tile@,
                existing_hashes@.map_values(|h: &str| h@),
            ),
    {
        let decision = self.evaluate(tile);
        if !decision.is_accept() {
            return decision;
        }
        let ghost ex = existing_hashes@.map_values(|h: &str| h@);
        if self.config.reject_duplicates {
            let tile_hash = tile.content_hash();
            let mut i: usize = 0;
            while i < existing_hashes.len()
                invariant
                    ex == existing_hashes@.map_values(|h: &str| h@),
                    tile_hash@ == content_hash_of(tile@),
                    gate_verdict(&self.config, tile@) is None,
                    self.config.reject_duplicates,
                    i <= existing_hashes.len(),
                    forall|j: int| 0 <= j < i ==> ex[j] != tile_hash@,
                decreases existing_hashes.len() - i,
            {
                if same_text(existing_hashes[i], tile_hash.as_str()) {
                    assert(ex[i as int] == tile_hash@);
                    return GateDecision::Reject(String::from_str("duplicate tile (matching content hash)"));
                }
                i = i + 1;
            }
            assert(!ex.contains(tile_hash@));
        }
        GateDecision::Accept
    }
}

} // verus!
