//! Index client and query service logic: the collection record, the points
//! of an upsert, defensive decoding of numeric payloads, and the query
//! decision. The network calls against the vector store stay outside the
//! library; everything here computes exactly what those calls carry.

use vstd::prelude::*;

use crate::chars::is_digit_char;
use crate::chunk::Chunk;
use crate::embed::Embeddings;
use crate::lines::trim_chars;
use crate::lines::trim_spec;
use crate::strutil::chars_of_str;
use crate::strutil::string_from_chars;

verus! {

/// The distance metric a collection is configured with.
#[derive(Debug, PartialEq, Eq, Structural, Clone, Copy)]
pub enum Distance {
    Dot,
    Cosine,
    Euclid,
    Manhattan,
}

/// A collection in the vector store: its name, the vector dimensionality,
/// and the distance metric.
pub struct CollectionRecord {
    pub name: String,
    pub dimension: u64,
    pub metric: Distance,
}

/// The collection to create for one ingestion: named after the document,
/// sized to the model's dimensionality, under the dot-product metric.
pub fn plan_collection(name: String, dimension: u64) -> (r: CollectionRecord)
    ensures
        r.name == name,
        r.dimension == dimension,
        r.metric == Distance::Dot,
{
    CollectionRecord { name, dimension, metric: Distance::Dot }
}

/// One point of an upsert: a positional id, the embedding vector, and the
/// payload carrying the chunk text and its page.
pub struct IndexPoint<E> {
    pub id: u64,
    pub vector: E,
    pub text: String,
    pub page: u16,
}

/// Turn paired chunks and vectors into upsert points: the `i`-th point
/// carries id `i`, the `i`-th vector (of the declared dimensionality), and
/// the `i`-th chunk's text and page.
pub fn build_points<S>(emb: Embeddings<S>) -> (r: Vec<IndexPoint<Vec<S>>>)
    requires
        emb.well_formed(),
    ensures
        r@.len() == emb.original@.len(),
        forall|i: int|
            0 <= i < r@.len() ==> {
                &&& (#[trigger] r@[i]).id == i as u64
                &&& r@[i].vector == emb.embedded@[i]
                &&& r@[i].vector@.len() == emb.dim
                &&& r@[i].text == emb.original@[i].content
                &&& r@[i].page == emb.original@[i].page
            },
{
    let ghost gdim = emb.dim;
    let Embeddings { original, embedded, dim: _ } = emb;
    let mut original = original;
    let mut embedded = embedded;
    let ghost chunks0 = original@;
    let ghost vecs0 = embedded@;
    let mut out: Vec<IndexPoint<Vec<S>>> = Vec::new();
    while original.len() > 0
        invariant
            original@.len() == embedded@.len(),
            vecs0.len() == chunks0.len(),
            forall|i: int| 0 <= i < vecs0.len() ==> (#[trigger] vecs0[i])@.len() == gdim,
            out@.len() + original@.len() == chunks0.len(),
            original@ =~= chunks0.skip(out@.len() as int),
            embedded@ =~= vecs0.skip(out@.len() as int),
            forall|i: int|
                0 <= i < out@.len() ==> {
                    &&& (#[trigger] out@[i]).id == i as u64
                    &&& out@[i].vector == vecs0[i]
                    &&& out@[i].vector@.len() == gdim
                    &&& out@[i].text == chunks0[i].content
                    &&& out@[i].page == chunks0[i].page
                },
        decreases original@.len(),
    {
        let ghost k = out@.len() as int;
        assert(chunks0.skip(k)[0] == chunks0[k]);
        assert(vecs0.skip(k)[0] == vecs0[k]);
        assert(original@[0] == chunks0[k]);
        assert(embedded@[0] == vecs0[k]);
        let ghost pre_chunks = original@;
        let ghost pre_vecs = embedded@;
        let c = original.remove(0);
        let v = embedded.remove(0);
        assert(original@ =~= pre_chunks.skip(1));
        assert(embedded@ =~= pre_vecs.skip(1));
        let id = out.len() as u64;
        out.push(IndexPoint { id, vector: v, text: c.content, page: c.page });
        assert(chunks0.skip(k).skip(1) =~= chunks0.skip(k + 1));
        assert(vecs0.skip(k).skip(1) =~= vecs0.skip(k + 1));
        assert(original@ =~= chunks0.skip(k + 1));
        assert(embedded@ =~= vecs0.skip(k + 1));
    }
    out
}

// ---------- defensive decoding of the page payload ----------

/// The value of an ASCII digit string, read in base ten.
pub open spec fn digits_value(t: Seq<char>) -> int
    decreases t.len(),
{
    if t.len() == 0 {
        0
    } else {
        digits_value(t.drop_last()) * 10 + (t.last() as u32 - 48)
    }
}

/// A nonempty run of ASCII digits.
pub open spec fn all_digits(t: Seq<char>) -> bool {
    t.len() > 0 && forall|i: int| 0 <= i < t.len() ==> is_digit_char(t[i])
}

/// What `str::parse::<i64>` accepts: an optional sign, then at least one
/// ASCII digit, with the value in range.
pub open spec fn parsed_i64(t: Seq<char>) -> Option<i64> {
    let neg = t.len() > 0 && t[0] == '-';
    let body = if t.len() > 0 && (t[0] == '-' || t[0] == '+') {
        t.skip(1)
    } else {
        t
    };
    if all_digits(body) {
        let v: int = if neg {
            -digits_value(body)
        } else {
            digits_value(body)
        };
        if i64::MIN <= v <= i64::MAX {
            Some(v as i64)
        } else {
            None
        }
    } else {
        None
    }
}

proof fn lemma_digits_nonneg(t: Seq<char>)
    requires
        forall|i: int| 0 <= i < t.len() ==> is_digit_char(t[i]),
    ensures
        digits_value(t) >= 0,
    decreases t.len(),
{
    if t.len() > 0 {
        assert(forall|i: int|
            0 <= i < t.drop_last().len() ==> is_digit_char(#[trigger] t.drop_last()[i]));
        lemma_digits_nonneg(t.drop_last());
        assert(is_digit_char(t.last()));
        assert(t.last() as u32 - 48 >= 0);
    }
}

/// A digit string is worth at least any of its prefixes.
proof fn lemma_digits_mono(t: Seq<char>, k: int)
    requires
        forall|i: int| 0 <= i < t.len() ==> is_digit_char(t[i]),
        0 <= k <= t.len(),
    ensures
        digits_value(t.take(k)) <= digits_value(t),
    decreases t.len(),
{
    if k == t.len() {
        assert(t.take(k) =~= t);
    } else {
        assert(forall|i: int|
            0 <= i < t.drop_last().len() ==> is_digit_char(t.drop_last()[i]));
        lemma_digits_mono(t.drop_last(), k);
        assert(t.drop_last().take(k) =~= t.take(k));
        lemma_digits_nonneg(t.drop_last());
    }
}

/// Parse a decimal integer exactly as `str::parse::<i64>` would: optional
/// sign, at least one ASCII digit, value in range.
pub fn parse_i64(s: &str) -> (r: Option<i64>)
    ensures
        r == parsed_i64(s@),
{
    let v = chars_of_str(s);
    let n = v.len();
    let mut neg = false;
    let mut start: usize = 0;
    if n > 0 && v[0] == '-' {
        neg = true;
        start = 1;
    } else if n > 0 && v[0] == '+' {
        start = 1;
    }
    let ghost body = if n > 0 && (v@[0] == '-' || v@[0] == '+') {
        v@.skip(1)
    } else {
        v@
    };
    assert(body =~= v@.skip(start as int));
    if start >= n {
        // the body is empty, so there is no digit to accept
        assert(!all_digits(body));
        return None;
    }
    let limit: u128 = if neg {
        9223372036854775808
    } else {
        9223372036854775807
    };
    let mut acc: u128 = 0;
    let mut i = start;
    while i < n
        invariant
            start <= i <= n,
            n == v.len(),
            start < n,
            v@ == s@,
            start <= 1,
            neg <==> (n > 0 && v@[0] == '-'),
            start == 1 <==> (n > 0 && (v@[0] == '-' || v@[0] == '+')),
            body == (if n > 0 && (v@[0] == '-' || v@[0] == '+') {
                v@.skip(1)
            } else {
                v@
            }),
            body =~= v@.skip(start as int),
            acc <= limit,
            limit == (if neg {
                9223372036854775808u128
            } else {
                9223372036854775807u128
            }),
            acc == digits_value(body.take(i as int - start as int)),
            forall|j: int| 0 <= j < i as int - start as int ==> is_digit_char(#[trigger] body[j]),
        decreases n - i,
    {
        let c = v[i];
        assert(body[i as int - start as int] == v@[i as int]);
        if !crate::chars::digit_char(c) {
            assert(!all_digits(body));
            return None;
        }
        assert(48 <= c as u32 && c as u32 <= 57);
        let d: u128 = (c as u32 - 48) as u128;
        assert(body.take(i as int - start as int + 1).drop_last() =~= body.take(
            i as int - start as int,
        ));
        assert(body.take(i as int - start as int + 1).last() == body[i as int - start as int]);
        acc = acc * 10 + d;
        assert(acc == digits_value(body.take(i as int - start as int + 1)));
        if acc > limit {
            proof {
                if all_digits(body) {
                    lemma_digits_mono(body, i as int - start as int + 1);
                    assert(digits_value(body) >= acc);
                }
            }
            return None;
        }
        i = i + 1;
    }
    assert(body.take(n as int - start as int) =~= body);
    assert(all_digits(body));
    assert(acc == digits_value(body));
    if neg {
        if acc == 9223372036854775808 {
            Some(i64::MIN)
        } else {
            Some(-(acc as i64))
        }
    } else {
        Some(acc as i64)
    }
}

/// A numeric payload field as the store hands it back: an integer, a string
/// of digits, or absent/of another kind.
pub enum PayloadNumber {
    Int(i64),
    Text(String),
    Missing,
}

/// The page a payload field decodes to: an integer is taken as is, a string
/// is parsed as a decimal integer, and everything else defaults to page 1.
/// A malformed field never fails the query.
pub open spec fn decoded_page(p: PayloadNumber) -> i64 {
    match p {
        PayloadNumber::Int(i) => i,
        PayloadNumber::Text(s) => match parsed_i64(s@) {
            Some(x) => x,
            None => 1,
        },
        PayloadNumber::Missing => 1,
    }
}

/// Decode the page field of one search hit.
pub fn decode_page(p: &PayloadNumber) -> (r: i64)
    ensures
        r == decoded_page(*p),
{
    match p {
        PayloadNumber::Int(i) => *i,
        PayloadNumber::Text(s) => match parse_i64(s.as_str()) {
            Some(x) => x,
            None => 1,
        },
        PayloadNumber::Missing => 1,
    }
}

/// One raw search hit: the text payload, if the store returned one, and the
/// page payload field.
pub struct RawPoint {
    pub text: Option<String>,
    pub page: PayloadNumber,
}

/// One decoded search hit.
#[derive(Debug, Clone)]
pub struct SearchResult {
    pub text: String,
    pub page: i64,
}

/// The decoded results: hits without a text payload are skipped; the page
/// of every kept hit is decoded defensively.
pub open spec fn decoded_results(ps: Seq<RawPoint>, n: int) -> Seq<(Seq<char>, i64)>
    decreases n,
{
    if n <= 0 {
        Seq::<(Seq<char>, i64)>::empty()
    } else {
        let r = decoded_results(ps, n - 1);
        match ps[n - 1].text {
            Some(t) => r.push((t@, decoded_page(ps[n - 1].page))),
            None => r,
        }
    }
}

/// Decode a whole response, never failing on a malformed hit.
pub fn decode_search_results(points: &Vec<RawPoint>) -> (r: Vec<SearchResult>)
    ensures
        r@.map_values(|x: SearchResult| (x.text@, x.page)) == decoded_results(
            points@,
            points@.len() as int,
        ),
{
    let n = points.len();
    let mut out: Vec<SearchResult> = Vec::new();
    for i in 0..n
        invariant
            n == points.len(),
            out@.map_values(|x: SearchResult| (x.text@, x.page)) =~~= decoded_results(
                points@,
                i as int,
            ),
    {
        let ghost prev_map = out@.map_values(|x: SearchResult| (x.text@, x.page));
        match &points[i].text {
            Some(t) => {
                let page = decode_page(&points[i].page);
                out.push(SearchResult { text: t.clone(), page });
                assert(out@.drop_last().map_values(|x: SearchResult| (x.text@, x.page))
                    =~~= prev_map);
                assert(out@.map_values(|x: SearchResult| (x.text@, x.page)) =~~= prev_map.push(
                    (out@.last().text@, out@.last().page),
                ));
            },
            None => {},
        }
        assert(out@.map_values(|x: SearchResult| (x.text@, x.page)) =~~= decoded_results(
            points@,
            i + 1,
        ));
    }
    out
}

/// Law (the in-reach part of the upsert/query round trip): a hit whose
/// payload is what `build_points` stored for a chunk decodes back to exactly
/// that chunk's text and page. Whether the stored chunk is among the top-K
/// nearest neighbors for its own text depends on the embedding model and
/// the store's search, which lie outside this library.
pub proof fn lemma_stored_payload_decodes_back(c: Chunk)
    ensures
        ({
            let hit = RawPoint {
                text: Some(c.content),
                page: PayloadNumber::Int(c.page as i64),
            };
            decoded_results(seq![hit], 1) == seq![(c.content@, c.page as i64)]
        }),
{
    let hit = RawPoint { text: Some(c.content), page: PayloadNumber::Int(c.page as i64) };
    assert(decoded_results(seq![hit], 0) =~= Seq::<(Seq<char>, i64)>::empty());
    assert(seq![hit][0] == hit);
    assert(decoded_results(seq![hit], 1) =~= seq![(c.content@, c.page as i64)]);
}

/// The query decision: an empty query is answered with an empty result list
/// and no store call; any other query is trimmed and searched.
pub enum QueryPlan {
    Empty,
    Search(String),
}

/// Decide how to answer a query string: `Empty` exactly when the query is
/// empty after trimming, else `Search` with the trimmed query to embed.
pub fn plan_query(query: &str) -> (r: QueryPlan)
    ensures
        r is Empty <==> trim_spec(query@).len() == 0,
        r matches QueryPlan::Search(q) ==> q@ == trim_spec(query@),
{
    let v = chars_of_str(query);
    let t = trim_chars(&v);
    if t.len() == 0 {
        QueryPlan::Empty
    } else {
        QueryPlan::Search(string_from_chars(&t))
    }
}

} // verus!
