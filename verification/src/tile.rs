//! The knowledge tile: its content hash, its validation rules, and the
//! builder that assembles and validates one.

use sha2::Digest;
use vstd::prelude::*;
use vstd::utf8::*;

use crate::ieee::{above_one, below_zero, is_nan, Real64};
use crate::text::{copy_strings, join2, trim_chars, trimmed};

verus! {

#[verifier::external_type_specification]
#[verifier::external_body]
pub struct ExUuid(uuid::Uuid);

/// `Clone` of `uuid::Uuid`, which derives it on a `Copy` type: the clone is
/// the same identifier.
pub assume_specification[ <uuid::Uuid as core::clone::Clone>::clone ](u: &uuid::Uuid) -> (r: uuid::Uuid)
    ensures
        r == *u,
;

/// Unique hash identifying a tile's content (lower-case hex of a SHA-256 digest).
pub type TileHash = String;

/// A fresh random (version 4) identifier, from `uuid::Uuid::new_v4`.
/// Nothing is stated of the value: it is random; the call panics when the
/// operating system gives no random bytes.
#[verifier::external_body]
pub(crate) fn new_tile_id() -> (id: uuid::Uuid) {
    uuid::Uuid::new_v4()
}

/// The current time in seconds since the Unix epoch, from
/// `chrono::Utc::now().timestamp()`: not negative, as the call panics when
/// the system clock reads a time before the epoch; otherwise the value is
/// the clock's.
#[verifier::external_body]
pub(crate) fn unix_now() -> (t: i64)
    ensures
        t >= 0,
{
    chrono::Utc::now().timestamp()
}

/// The SHA-256 digest of a byte string.
pub uninterp spec fn sha256_digest(data: Seq<u8>) -> Seq<u8>;

/// `sha2::Sha256::digest`: the SHA-256 digest of `data`, 32 bytes. The
/// contract names the digest; it states nothing of the hash function itself.
#[verifier::external_body]
fn sha256(data: &[u8]) -> (r: Vec<u8>)
    ensures
        r@ == sha256_digest(data@),
        r@.len() == 32,
{
    sha2::Sha256::digest(data).to_vec()
}

/// The lower-case hex digit of a value below 16.
pub open spec fn hex_digit(d: int) -> char {
    if d < 10 {
        (48 + d) as char
    } else {
        (87 + d) as char
    }
}

/// Lower-case hex of a byte string: two digits per byte, high half first.
pub open spec fn hex_lower(data: Seq<u8>) -> Seq<char>
    decreases data.len(),
{
    if data.len() == 0 {
        seq![]
    } else {
        seq![hex_digit(data[0] as int / 16), hex_digit(data[0] as int % 16)] + hex_lower(data.drop_first())
    }
}

/// Hex takes two digits per byte, each a lower-case hex digit.
pub proof fn lemma_hex_lower_shape(data: Seq<u8>)
    ensures
        hex_lower(data).len() == 2 * data.len(),
        forall|i: int| 0 <= i < hex_lower(data).len() ==> is_hex_digit(#[trigger] hex_lower(data)[i]),
    decreases data.len(),
{
    if data.len() > 0 {
        lemma_hex_lower_shape(data.drop_first());
        let h = hex_lower(data);
        let d = seq![hex_digit(data[0] as int / 16), hex_digit(data[0] as int % 16)];
        let rest = hex_lower(data.drop_first());
        assert(h == d + rest);
        assert forall|i: int| 0 <= i < h.len() implies is_hex_digit(#[trigger] h[i]) by {
            if i >= 2 {
                assert(h[i] == rest[i - 2]);
            }
        }
    }
}

/// A lower-case hex digit: `0`-`9` or `a`-`f`.
pub open spec fn is_hex_digit(c: char) -> bool {
    ('0' <= c && c <= '9') || ('a' <= c && c <= 'f')
}

/// `hex::encode`: the bytes as lower-case hex, two digits per byte, high
/// half first.
#[verifier::external_body]
fn hex_encode(data: &[u8]) -> (r: String)
    ensures
        r@ == hex_lower(data@),
{
    hex::encode(data)
}

/// Provenance metadata: who created a tile and how.
#[derive(Debug, Clone)]
pub struct Provenance {
    pub agent_id: String,
    pub session_id: String,
    pub chain_hash: String,
    pub signature: String,
}

impl Provenance {
    pub open spec fn view(&self) -> (Seq<char>, Seq<char>, Seq<char>, Seq<char>) {
        (self.agent_id@, self.session_id@, self.chain_hash@, self.signature@)
    }

    /// A copy of the provenance.
    pub fn duplicate(&self) -> (r: Self)
        ensures
            r@ == self@,
    {
        Provenance {
            agent_id: self.agent_id.clone(),
            session_id: self.session_id.clone(),
            chain_hash: self.chain_hash.clone(),
            signature: self.signature.clone(),
        }
    }
}

/// A tile as plain values.
pub struct TileView {
    pub id: uuid::Uuid,
    pub domain: Seq<char>,
    pub question: Seq<char>,
    pub answer: Seq<char>,
    pub source: Seq<char>,
    pub confidence: (u64, Seq<char>),
    pub tags: Seq<Seq<char>>,
    pub created_at: i64,
    pub provenance: (Seq<char>, Seq<char>, Seq<char>, Seq<char>),
}

/// A PLATO knowledge tile: the fundamental unit of knowledge.
#[derive(Debug, Clone)]
pub struct Tile {
    pub id: uuid::Uuid,
    pub domain: String,
    pub question: String,
    pub answer: String,
    pub source: String,
    pub confidence: Real64,
    pub tags: Vec<String>,
    pub created_at: i64,
    pub provenance: Provenance,
}

/// The bytes a tile's content hash covers: domain, question, answer and
/// source, in that order, as UTF-8; nothing else of the tile.
pub open spec fn content_bytes(t: TileView) -> Seq<u8> {
    encode_utf8(t.domain) + encode_utf8(t.question) + encode_utf8(t.answer) + encode_utf8(t.source)
}

proof fn lemma_cancel_middle(p: Seq<u8>, x: Seq<u8>, y: Seq<u8>, q: Seq<u8>)
    requires
        p + x + q == p + y + q,
    ensures
        x == y,
{
    let a = p + x + q;
    let b = p + y + q;
    assert(a.len() == b.len());
    assert(x =~= a.subrange(p.len() as int, (p.len() + x.len()) as int));
    assert(y =~= b.subrange(p.len() as int, (p.len() + y.len()) as int));
}

proof fn lemma_encode_utf8_injective(x: Seq<char>, y: Seq<char>)
    requires
        encode_utf8(x) == encode_utf8(y),
    ensures
        x == y,
{
    encode_utf8_decode_utf8(x);
    encode_utf8_decode_utf8(y);
}

/// The content bytes keep each hashed field exactly as stored, white space
/// included: two tiles with the same content bytes that agree on three of
/// domain, question, answer and source agree on the fourth as well.
pub proof fn lemma_content_bytes_keep_fields(a: TileView, b: TileView)
    requires
        content_bytes(a) == content_bytes(b),
    ensures
        a.domain == b.domain && a.question == b.question && a.source == b.source ==> a.answer == b.answer,
        a.domain == b.domain && a.answer == b.answer && a.source == b.source ==> a.question == b.question,
        a.question == b.question && a.answer == b.answer && a.source == b.source ==> a.domain == b.domain,
        a.domain == b.domain && a.question == b.question && a.answer == b.answer ==> a.source == b.source,
{
    let (da, qa, aa, sa) = (encode_utf8(a.domain), encode_utf8(a.question), encode_utf8(a.answer), encode_utf8(a.source));
    let (db, qb, ab, sb) = (encode_utf8(b.domain), encode_utf8(b.question), encode_utf8(b.answer), encode_utf8(b.source));
    if a.domain == b.domain && a.question == b.question && a.source == b.source {
        lemma_cancel_middle(da + qa, aa, ab, sa);
        lemma_encode_utf8_injective(a.answer, b.answer);
    }
    if a.domain == b.domain && a.answer == b.answer && a.source == b.source {
        assert(content_bytes(a) =~= da + qa + (aa + sa));
        assert(content_bytes(b) =~= da + qb + (aa + sa));
        lemma_cancel_middle(da, qa, qb, aa + sa);
        lemma_encode_utf8_injective(a.question, b.question);
    }
    if a.question == b.question && a.answer == b.answer && a.source == b.source {
        assert(content_bytes(a) =~= Seq::<u8>::empty() + da + (qa + aa + sa));
        assert(content_bytes(b) =~= Seq::<u8>::empty() + db + (qa + aa + sa));
        lemma_cancel_middle(Seq::<u8>::empty(), da, db, qa + aa + sa);
        lemma_encode_utf8_injective(a.domain, b.domain);
    }
    if a.domain == b.domain && a.question == b.question && a.answer == b.answer {
        assert(content_bytes(a) =~= da + qa + aa + sa + Seq::<u8>::empty());
        assert(content_bytes(b) =~= da + qa + aa + sb + Seq::<u8>::empty());
        lemma_cancel_middle(da + qa + aa, sa, sb, Seq::<u8>::empty());
        lemma_encode_utf8_injective(a.source, b.source);
    }
}

/// The content hash of a tile.
pub open spec fn content_hash_of(t: TileView) -> Seq<char> {
    hex_lower(sha256_digest(content_bytes(t)))
}

/// Why a tile fails validation, as plain values.
pub enum TileFault {
    EmptyField(Seq<char>),
    InvalidConfidence(u64, Seq<char>),
}

/// The first rule a tile breaks, if any: the domain, question, answer and
/// source must not be blank; the confidence must lie in `[0.0, 1.0]` (so a
/// NaN, which lies in no range, is refused); the provenance's agent must not
/// be blank. "Blank" means nothing is left after trimming white
/// space.
pub open spec fn first_fault(t: TileView) -> Option<TileFault> {
    if trim_chars(t.domain).len() == 0 {
        Some(TileFault::EmptyField("domain"@))
    } else if trim_chars(t.question).len() == 0 {
        Some(TileFault::EmptyField("question"@))
    } else if trim_chars(t.answer).len() == 0 {
        Some(TileFault::EmptyField("answer"@))
    } else if trim_chars(t.source).len() == 0 {
        Some(TileFault::EmptyField("source"@))
    } else if is_nan(t.confidence.0) || below_zero(t.confidence.0) || above_one(t.confidence.0) {
        Some(TileFault::InvalidConfidence(t.confidence.0, t.confidence.1))
    } else if trim_chars(t.provenance.0).len() == 0 {
        Some(TileFault::EmptyField("provenance.agent_id"@))
    } else {
        None
    }
}

/// Blank means nothing is left after trimming white space.
pub open spec fn blank(s: Seq<char>) -> bool {
    trim_chars(s).len() == 0
}

/// A tile passes validation exactly when none of its domain, question,
/// answer, source and provenance agent is blank and its confidence is a
/// number from 0.0 to 1.0; each blank field is reported by its name, the
/// fields checked in the order domain, question, answer, source.
pub proof fn lemma_validation_rules(t: TileView)
    ensures
        first_fault(t) is None <==> (!blank(t.domain) && !blank(t.question) && !blank(t.answer) && !blank(
            t.source,
        ) && !blank(t.provenance.0) && !is_nan(t.confidence.0) && !below_zero(t.confidence.0) && !above_one(
            t.confidence.0,
        )),
        blank(t.domain) ==> first_fault(t) == Some(TileFault::EmptyField("domain"@)),
        !blank(t.domain) && blank(t.question) ==> first_fault(t) == Some(TileFault::EmptyField("question"@)),
        !blank(t.domain) && !blank(t.question) && blank(t.answer) ==> first_fault(t) == Some(
            TileFault::EmptyField("answer"@),
        ),
        !blank(t.domain) && !blank(t.question) && !blank(t.answer) && blank(t.source) ==> first_fault(t)
            == Some(TileFault::EmptyField("source"@)),
{
}

/// Why a tile failed validation.
#[derive(Debug, Clone)]
pub enum TileValidationError {
    EmptyField(String),
    InvalidConfidence(Real64),
}

impl TileValidationError {
    pub open spec fn view(&self) -> TileFault {
        match self {
            TileValidationError::EmptyField(f) => TileFault::EmptyField(f@),
            TileValidationError::InvalidConfidence(c) => TileFault::InvalidConfidence(c.bits, c.text@),
        }
    }

    /// A copy of the error.
    pub fn duplicate(&self) -> (r: Self)
        ensures
            r@ == self@,
    {
        match self {
            TileValidationError::EmptyField(f) => TileValidationError::EmptyField(f.clone()),
            TileValidationError::InvalidConfidence(c) => TileValidationError::InvalidConfidence(
                c.duplicate(),
            ),
        }
    }

    /// The error as it is printed.
    pub fn message(&self) -> (m: String)
        ensures
            m@ == fault_message(self@),
    {
        match self {
            TileValidationError::EmptyField(f) => join2("empty field: ", f.as_str()),
            TileValidationError::InvalidConfidence(c) => {
                let head = join2("invalid confidence: ", c.text.as_str());
                join2(head.as_str(), " (must be 0.0-1.0)")
            },
        }
    }
}

/// The printed form of a validation failure.
pub open spec fn fault_message(f: TileFault) -> Seq<char> {
    match f {
        TileFault::EmptyField(name) => "empty field: "@ + name,
        TileFault::InvalidConfidence(_, text) => "invalid confidence: "@ + text + " (must be 0.0-1.0)"@,
    }
}

fn append_bytes(v: &mut Vec<u8>, s: &[u8])
    ensures
        final(v)@ == old(v)@ + s@,
{
    let mut i: usize = 0;
    while i < s.len()
        invariant
            i <= s.len(),
            v@ == old(v)@ + s@.subrange(0, i as int),
        decreases s.len() - i,
    {
        v.push(s[i]);
        i = i + 1;
        assert(v@ =~= old(v)@ + s@.subrange(0, i as int));
    }
    assert(s@.subrange(0, s.len() as int) =~= s@);
}

impl Tile {
    pub open spec fn view(&self) -> TileView {
        TileView {
            id: self.id,
            domain: self.domain@,
            question: self.question@,
            answer: self.answer@,
            source: self.source@,
            confidence: self.confidence@,
            tags: self.tags.deep_view(),
            created_at: self.created_at,
            provenance: self.provenance@,
        }
    }

    /// A copy of the tile.
    pub fn duplicate(&self) -> (r: Self)
        ensures
            r@ == self@,
    {
        Tile {
            id: self.id,
            domain: self.domain.clone(),
            question: self.question.clone(),
            answer: self.answer.clone(),
            source: self.source.clone(),
            confidence: self.confidence.duplicate(),
            tags: copy_strings(&self.tags),
            created_at: self.created_at,
            provenance: self.provenance.duplicate(),
        }
    }

    /// Content hash for deduplication: the lower-case hex SHA-256 digest of
    /// domain, question, answer and source (metadata is not hashed).
    pub fn content_hash(&self) -> (h: TileHash)
        ensures
            h@ == content_hash_of(self@),
            h@ == hex_lower(
                sha256_digest(
                    encode_utf8(self.domain@) + encode_utf8(self.question@) + encode_utf8(self.answer@)
                        + encode_utf8(self.source@),
                ),
            ),
            h@.len() == 64,
            forall|i: int| 0 <= i < h@.len() ==> is_hex_digit(#[trigger] h@[i]),
    {
        let mut data: Vec<u8> = Vec::new();
        append_bytes(&mut data, self.domain.as_str().as_bytes());
        append_bytes(&mut data, self.question.as_str().as_bytes());
        append_bytes(&mut data, self.answer.as_str().as_bytes());
        append_bytes(&mut data, self.source.as_str().as_bytes());
        let digest = sha256(data.as_slice());
        proof {
            lemma_hex_lower_shape(digest@);
        }
        hex_encode(digest.as_slice())
    }

    /// Checks that the required fields are present and the confidence is in
    /// range; reports the first rule broken.
    pub fn validate(&self) -> (r: Result<(), TileValidationError>)
        ensures
            match (r, first_fault(self@)) {
                (Ok(()), None) => true,
                (Err(e), Some(f)) => e@ == f,
                _ => false,
            },
    {
        if trimmed(self.domain.as_str()).is_empty() {
            return Err(TileValidationError::EmptyField(String::from_str("domain")));
        }
        if trimmed(self.question.as_str()).is_empty() {
            return Err(TileValidationError::EmptyField(String::from_str("question")));
        }
        if trimmed(self.answer.as_str()).is_empty() {
            return Err(TileValidationError::EmptyField(String::from_str("answer")));
        }
        if trimmed(self.source.as_str()).is_empty() {
            return Err(TileValidationError::EmptyField(String::from_str("source")));
        }
        if self.confidence.is_nan() || self.confidence.is_below_zero() || self.confidence.is_above_one() {
            return Err(TileValidationError::InvalidConfidence(self.confidence.duplicate()));
        }
        if trimmed(self.provenance.agent_id.as_str()).is_empty() {
            return Err(TileValidationError::EmptyField(String::from_str("provenance.agent_id")));
        }
        Ok(())
    }
}

/// The content hash depends on domain, question, answer and source alone:
/// tiles that agree on these have the same hash, whatever their metadata.
pub proof fn lemma_hash_ignores_metadata(a: TileView, b: TileView)
    requires
        a.domain == b.domain,
        a.question == b.question,
        a.answer == b.answer,
        a.source == b.source,
    ensures
        content_hash_of(a) == content_hash_of(b),
{
}

/// A tile builder as plain values.
pub struct TileBuilderView {
    pub domain: Option<Seq<char>>,
    pub question: Option<Seq<char>>,
    pub answer: Option<Seq<char>>,
    pub source: Option<Seq<char>>,
    pub confidence: Option<(u64, Seq<char>)>,
    pub tags: Seq<Seq<char>>,
    pub provenance: Option<(Seq<char>, Seq<char>, Seq<char>, Seq<char>)>,
}

/// Builder for constructing tiles with validation.
#[derive(Debug)]
pub struct TileBuilder {
    domain: Option<String>,
    question: Option<String>,
    answer: Option<String>,
    source: Option<String>,
    confidence: Option<Real64>,
    tags: Vec<String>,
    provenance: Option<Provenance>,
}

pub open spec fn text_option(o: Option<String>) -> Option<Seq<char>> {
    match o {
        Some(s) => Some(s@),
        None => None,
    }
}

/// The first required field that a builder lacks, in the order domain,
/// question, answer, source, confidence, provenance.
pub open spec fn first_missing(b: TileBuilderView) -> Option<Seq<char>> {
    if b.domain is None {
        Some("domain"@)
    } else if b.question is None {
        Some("question"@)
    } else if b.answer is None {
        Some("answer"@)
    } else if b.source is None {
        Some("source"@)
    } else if b.confidence is None {
        Some("confidence"@)
    } else if b.provenance is None {
        Some("provenance"@)
    } else {
        None
    }
}

/// The tile a complete builder makes, with the given id and creation time.
pub open spec fn assembled(b: TileBuilderView, id: uuid::Uuid, created_at: i64) -> TileView {
    TileView {
        id,
        domain: b.domain->0,
        question: b.question->0,
        answer: b.answer->0,
        source: b.source->0,
        confidence: b.confidence->0,
        tags: b.tags,
        created_at,
        provenance: b.provenance->0,
    }
}

/// The validation failure of the tile a complete builder makes (validation
/// reads neither the id nor the creation time).
pub open spec fn builder_fault(b: TileBuilderView) -> Option<TileFault> {
    first_fault(assembled(b, arbitrary(), 0))
}

/// A complete builder whose domain, question, answer, source or
/// provenance agent is blank makes no tile: building reports a validation
/// failure.
pub proof fn lemma_build_refuses_blank_fields(b: TileBuilderView)
    requires
        first_missing(b) is None,
        blank(b.domain->0) || blank(b.question->0) || blank(b.answer->0) || blank(b.source->0) || blank(
            (b.provenance->0).0,
        ),
    ensures
        builder_fault(b) is Some,
{
    lemma_validation_rules(assembled(b, arbitrary(), 0));
}

/// Why building a tile failed, as plain values.
pub enum BuildFault {
    MissingField(Seq<char>),
    Validation(TileFault),
}

/// Why building a tile failed.
#[derive(Debug)]
pub enum TileBuildError {
    MissingField(&'static str),
    Validation(TileValidationError),
}

impl TileBuildError {
    pub open spec fn view(&self) -> BuildFault {
        match self {
            TileBuildError::MissingField(f) => BuildFault::MissingField(f@),
            TileBuildError::Validation(e) => BuildFault::Validation(e@),
        }
    }

    /// The error as it is printed.
    pub fn message(&self) -> (m: String)
        ensures
            m@ == match self@ {
                BuildFault::MissingField(f) => "missing required field: "@ + f,
                BuildFault::Validation(f) => "validation failed: "@ + fault_message(f),
            },
    {
        match self {
            TileBuildError::MissingField(f) => join2("missing required field: ", f),
            TileBuildError::Validation(e) => {
                let inner = e.message();
                join2("validation failed: ", inner.as_str())
            },
        }
    }
}

impl Default for TileBuilder {
    /// An empty builder.
    fn default() -> (b: Self)
        ensures
            b@ == (TileBuilderView {
                domain: None,
                question: None,
                answer: None,
                source: None,
                confidence: None,
                tags: seq![],
                provenance: None,
            }),
    {
        TileBuilder::new()
    }
}

impl TileBuilder {
    pub closed spec fn view(&self) -> TileBuilderView {
        TileBuilderView {
            domain: text_option(self.domain),
            question: text_option(self.question),
            answer: text_option(self.answer),
            source: text_option(self.source),
            confidence: match self.confidence {
                Some(c) => Some(c@),
                None => None,
            },
            tags: self.tags.deep_view(),
            provenance: match self.provenance {
                Some(p) => Some(p@),
                None => None,
            },
        }
    }

    /// An empty builder.
    pub fn new() -> (b: Self)
        ensures
            b@ == (TileBuilderView {
                domain: None,
                question: None,
                answer: None,
                source: None,
                confidence: None,
                tags: seq![],
                provenance: None,
            }),
    {
        let b = TileBuilder {
            domain: None,
            question: None,
            answer: None,
            source: None,
            confidence: None,
            tags: Vec::new(),
            provenance: None,
        };
        assert(b.tags.deep_view() =~= Seq::<Seq<char>>::empty());
        b
    }

    pub fn domain(self, domain: &str) -> (b: Self)
        ensures
            b@ == (TileBuilderView { domain: Some(domain@), ..self@ }),
    {
        TileBuilder { domain: Some(String::from_str(domain)), ..self }
    }

    pub fn question(self, question: &str) -> (b: Self)
        ensures
            b@ == (TileBuilderView { question: Some(question@), ..self@ }),
    {
        TileBuilder { question: Some(String::from_str(question)), ..self }
    }

    pub fn answer(self, answer: &str) -> (b: Self)
        ensures
            b@ == (TileBuilderView { answer: Some(answer@), ..self@ }),
    {
        TileBuilder { answer: Some(String::from_str(answer)), ..self }
    }

    pub fn source(self, source: &str) -> (b: Self)
        ensures
            b@ == (TileBuilderView { source: Some(source@), ..self@ }),
    {
        TileBuilder { source: Some(String::from_str(source)), ..self }
    }

    pub fn confidence(self, confidence: Real64) -> (b: Self)
        ensures
            b@ == (TileBuilderView { confidence: Some(confidence@), ..self@ }),
    {
        TileBuilder { confidence: Some(confidence), ..self }
    }

    /// Replaces the tags.
    pub fn tags(self, tags: Vec<String>) -> (b: Self)
        ensures
            b@ == (TileBuilderView { tags: tags.deep_view(), ..self@ }),
    {
        TileBuilder { tags, ..self }
    }

    /// Appends one tag.
    pub fn tag(self, tag: &str) -> (b: Self)
        ensures
            b@ == (TileBuilderView { tags: self@.tags.push(tag@), ..self@ }),
    {
        let mut tags = self.tags;
        let ghost before = tags.deep_view();
        tags.push(String::from_str(tag));
        assert(tags.deep_view() =~= before.push(tag@));
        TileBuilder { tags, ..self }
    }

    pub fn provenance(self, provenance: Provenance) -> (b: Self)
        ensures
            b@ == (TileBuilderView { provenance: Some(provenance@), ..self@ }),
    {
        TileBuilder { provenance: Some(provenance), ..self }
    }

    /// Builds the tile: every required field must be set (the first missing
    /// one is reported), then the tile gets a fresh random id and the current
    /// time, and must pass validation.
    pub fn build(self) -> (r: Result<Tile, TileBuildError>)
        ensures
            first_missing(self@) matches Some(f) ==> r matches Err(e) && e@ == BuildFault::MissingField(f),
            first_missing(self@) is None ==> (r is Ok <==> builder_fault(self@) is None),
            first_missing(self@) is None ==> (builder_fault(self@) matches Some(f) ==> r matches Err(e)
                && e@ == BuildFault::Validation(f)),
            r matches Ok(t) ==> t@ == assembled(self@, t.id, t.created_at) && t.created_at >= 0,
    {
        let ghost b = self@;
        let domain = match self.domain {
            Some(d) => d,
            None => { return Err(TileBuildError::MissingField("domain")); },
        };
        let question = match self.question {
            Some(q) => q,
            None => { return Err(TileBuildError::MissingField("question")); },
        };
        let answer = match self.answer {
            Some(a) => a,
            None => { return Err(TileBuildError::MissingField("answer")); },
        };
        let source = match self.source {
            Some(s) => s,
            None => { return Err(TileBuildError::MissingField("source")); },
        };
        let confidence = match self.confidence {
            Some(c) => c,
            None => { return Err(TileBuildError::MissingField("confidence")); },
        };
        let provenance = match self.provenance {
            Some(p) => p,
            None => { return Err(TileBuildError::MissingField("provenance")); },
        };
        let tile = Tile {
            id: new_tile_id(),
            domain,
            question,
            answer,
            source,
            confidence,
            tags: self.tags,
            created_at: unix_now(),
            provenance,
        };
        assert(tile@ == assembled(b, tile.id, tile.created_at));
        assert(first_fault(tile@) == builder_fault(b));
        match tile.validate() {
            Ok(()) => Ok(tile),
            Err(e) => Err(TileBuildError::Validation(e)),
        }
    }
}

} // verus!
