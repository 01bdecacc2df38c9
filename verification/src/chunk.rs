//! Chunk assembly: packing sentences into bounded, overlapping chunks tied
//! to source page numbers.

use vstd::prelude::*;

use crate::header::is_garbage_spec;
use crate::header::is_likely_header_spec;
use crate::header::likely_header_chars;
use crate::lines::line_views;
use crate::lines::lemma_trim_borders;
use crate::lines::trim_chars;
use crate::lines::trim_spec;
use crate::segment::sentences_of;
use crate::segment::split_into_sentences;
use crate::strutil::append_chars;
use crate::strutil::chars_of_str;
use crate::strutil::copy_chars;
use crate::strutil::string_from_chars;
use crate::text::normalize_spec;

verus! {

/// One page of extracted document text.
pub struct Page {
    pub page_num: u16,
    pub content: String,
}

/// A bounded span of document text, tagged with its source page.
#[derive(Debug, Clone)]
pub struct Chunk {
    pub content: String,
    pub page: u16,
}

/// Join texts with a single space between consecutive texts.
pub open spec fn join_sp(ls: Seq<Seq<char>>) -> Seq<char>
    decreases ls.len(),
{
    if ls.len() == 0 {
        Seq::<char>::empty()
    } else if ls.len() == 1 {
        ls[0]
    } else {
        join_sp(ls.drop_last()) + seq![' '] + ls.last()
    }
}

fn join_sp_from(buffer: &Vec<Vec<char>>, start: usize) -> (out: Vec<char>)
    requires
        start <= buffer@.len(),
    ensures
        out@ == join_sp(line_views(buffer@).skip(start as int)),
{
    let n = buffer.len();
    let mut out: Vec<char> = Vec::new();
    for j in start..n
        invariant
            start <= j <= n,
            n == buffer.len(),
            out@ =~= join_sp(line_views(buffer@).subrange(start as int, j as int)),
    {
        if j > start {
            out.push(' ');
        }
        append_chars(&mut out, &buffer[j]);
        assert(line_views(buffer@).subrange(start as int, j + 1).drop_last() =~= line_views(
            buffer@,
        ).subrange(start as int, j as int));
        assert(line_views(buffer@).subrange(start as int, j + 1).last() == buffer@[j as int]@);
        assert(out@ =~= join_sp(line_views(buffer@).subrange(start as int, j + 1)));
    }
    assert(line_views(buffer@).subrange(start as int, n as int) =~= line_views(buffer@).skip(
        start as int,
    ));
    out
}

/// One step of sentence-bounded assembly: a header-like sentence is skipped;
/// any other sentence joins the buffer and the growing chunk; once the chunk
/// reaches `chunk_size` characters its trim is emitted and the next chunk is
/// seeded with the last `overlap` buffered sentences.
pub open spec fn assembly_step(
    chunks: Seq<Seq<char>>,
    current: Seq<char>,
    buffer: Seq<Seq<char>>,
    sentence: Seq<char>,
    chunk_size: int,
    overlap: int,
) -> (Seq<Seq<char>>, Seq<char>, Seq<Seq<char>>) {
    if is_likely_header_spec(sentence) {
        (chunks, current, buffer)
    } else {
        let buffer2 = buffer.push(sentence);
        let current2 = current + sentence + seq![' '];
        if current2.len() >= chunk_size {
            let emitted = trim_spec(current2);
            let chunks2 = if emitted.len() > 0 {
                chunks.push(emitted)
            } else {
                chunks
            };
            let start: int = if buffer2.len() > overlap {
                buffer2.len() - overlap
            } else {
                0
            };
            (chunks2, join_sp(buffer2.skip(start)), Seq::<Seq<char>>::empty())
        } else {
            (chunks, current2, buffer2)
        }
    }
}

/// The assembly state after the first `n` sentences.
pub open spec fn assembly_rec(sents: Seq<Seq<char>>, n: int, chunk_size: int, overlap: int) -> (
    Seq<Seq<char>>,
    Seq<char>,
    Seq<Seq<char>>,
)
    decreases n,
{
    if n <= 0 {
        (Seq::<Seq<char>>::empty(), Seq::<char>::empty(), Seq::<Seq<char>>::empty())
    } else {
        let st = assembly_rec(sents, n - 1, chunk_size, overlap);
        assembly_step(st.0, st.1, st.2, sents[n - 1], chunk_size, overlap)
    }
}

/// The chunks that sentence-bounded assembly produces from a text: the text
/// is normalized, segmented into sentences, and packed; a final nonempty
/// buffer is emitted even when under size.
pub open spec fn smart_chunks_spec(
    text: Seq<char>,
    chunk_size: int,
    overlap: int,
    remove_headers: bool,
) -> Seq<Seq<char>> {
    let sents = sentences_of(normalize_spec(text, remove_headers));
    let st = assembly_rec(sents, sents.len() as int, chunk_size, overlap);
    if trim_spec(st.1).len() > 0 {
        st.0.push(trim_spec(st.1))
    } else {
        st.0
    }
}

/// Every chunk is nonempty and carries no leading or trailing whitespace.
pub open spec fn chunks_trimmed_nonempty(ls: Seq<Seq<char>>) -> bool {
    forall|i: int|
        0 <= i < ls.len() ==> (#[trigger] ls[i]).len() > 0 && trim_spec(ls[i]) == ls[i]
}

proof fn lemma_assembly_chunks_ok(sents: Seq<Seq<char>>, n: int, chunk_size: int, overlap: int)
    requires
        0 <= n,
    ensures
        chunks_trimmed_nonempty(assembly_rec(sents, n, chunk_size, overlap).0),
    decreases n,
{
    if n > 0 {
        lemma_assembly_chunks_ok(sents, n - 1, chunk_size, overlap);
        let st = assembly_rec(sents, n - 1, chunk_size, overlap);
        if !is_likely_header_spec(sents[n - 1]) {
            let current2 = st.1 + sents[n - 1] + seq![' '];
            lemma_trim_borders(current2);
        }
    }
}

pub proof fn lemma_smart_chunks_ok(
    text: Seq<char>,
    chunk_size: int,
    overlap: int,
    remove_headers: bool,
)
    ensures
        chunks_trimmed_nonempty(smart_chunks_spec(text, chunk_size, overlap, remove_headers)),
{
    let sents = sentences_of(normalize_spec(text, remove_headers));
    lemma_assembly_chunks_ok(sents, sents.len() as int, chunk_size, overlap);
    let st = assembly_rec(sents, sents.len() as int, chunk_size, overlap);
    lemma_trim_borders(st.1);
}

/// Assemble a raw text into chunks: normalize it, split it into sentences,
/// skip header-like sentences, and pack the rest into chunks of at least
/// `chunk_size` characters with `overlap` sentences of context carried over;
/// the final partial chunk is emitted when its trim is nonempty.
pub fn smart_chunk_text(
    text: &str,
    chunk_size: usize,
    overlap: usize,
    remove_headers: bool,
) -> (r: Vec<String>)
    ensures
        r@.map_values(|s: String| s@) == smart_chunks_spec(
            text@,
            chunk_size as int,
            overlap as int,
            remove_headers,
        ),
        chunks_trimmed_nonempty(r@.map_values(|s: String| s@)),
{
    let tv = chars_of_str(text);
    let cleaned = crate::text::normalize_chars(&tv, remove_headers);
    let cleaned_str = string_from_chars(&cleaned);
    let sentences = split_into_sentences(cleaned_str.as_str());
    let ghost sents = sentences_of(normalize_spec(text@, remove_headers));
    let ns = sentences.len();
    let mut sv: Vec<Vec<char>> = Vec::new();
    for i in 0..ns
        invariant
            ns == sentences.len(),
            line_views(sv@) =~= sentences@.map_values(|s: String| s@).take(i as int),
    {
        sv.push(chars_of_str(sentences[i].as_str()));
        assert(sentences@.map_values(|s: String| s@).take(i + 1).drop_last() =~= sentences@.map_values(
            |s: String| s@,
        ).take(i as int));
        assert(line_views(sv@) =~= sentences@.map_values(|s: String| s@).take(i + 1));
    }
    assert(sentences@.map_values(|s: String| s@).take(ns as int) =~= sentences@.map_values(
        |s: String| s@,
    ));
    assert(line_views(sv@) == sents);

    let mut chunks: Vec<String> = Vec::new();
    let mut current: Vec<char> = Vec::new();
    let mut buffer: Vec<Vec<char>> = Vec::new();
    for i in 0..ns
        invariant
            ns == sv.len(),
            line_views(sv@) == sents,
            chunks@.map_values(|s: String| s@) =~= assembly_rec(
                sents,
                i as int,
                chunk_size as int,
                overlap as int,
            ).0,
            current@ == assembly_rec(sents, i as int, chunk_size as int, overlap as int).1,
            line_views(buffer@) =~= assembly_rec(
                sents,
                i as int,
                chunk_size as int,
                overlap as int,
            ).2,
    {
        assert(sents[i as int] == sv@[i as int]@);
        if !likely_header_chars(&sv[i]) {
            buffer.push(copy_chars(&sv[i]));
            assert(line_views(buffer@) =~= assembly_rec(
                sents,
                i as int,
                chunk_size as int,
                overlap as int,
            ).2.push(sents[i as int]));
            append_chars(&mut current, &sv[i]);
            current.push(' ');
            assert(current@ =~= assembly_rec(
                sents,
                i as int,
                chunk_size as int,
                overlap as int,
            ).1 + sents[i as int] + seq![' ']);
            if current.len() >= chunk_size {
                let emitted = trim_chars(&current);
                if emitted.len() > 0 {
                    chunks.push(string_from_chars(&emitted));
                }
                let bl = buffer.len();
                let start = if bl > overlap {
                    bl - overlap
                } else {
                    0
                };
                current = join_sp_from(&buffer, start);
                buffer = Vec::new();
            }
        }
        assert(chunks@.map_values(|s: String| s@) =~= assembly_rec(
            sents,
            i + 1,
            chunk_size as int,
            overlap as int,
        ).0);
        assert(current@ == assembly_rec(sents, i + 1, chunk_size as int, overlap as int).1);
        assert(line_views(buffer@) =~= assembly_rec(
            sents,
            i + 1,
            chunk_size as int,
            overlap as int,
        ).2);
    }
    let emitted = trim_chars(&current);
    if emitted.len() > 0 {
        chunks.push(string_from_chars(&emitted));
    }
    assert(chunks@.map_values(|s: String| s@) =~= smart_chunks_spec(
        text@,
        chunk_size as int,
        overlap as int,
        remove_headers,
    ));
    proof {
        lemma_smart_chunks_ok(text@, chunk_size as int, overlap as int, remove_headers);
    }
    chunks
}

/// Chunks that are not garbage fragments.
pub open spec fn keep_nongarbage(ls: Seq<Seq<char>>) -> Seq<Seq<char>>
    decreases ls.len(),
{
    if ls.len() == 0 {
        Seq::<Seq<char>>::empty()
    } else {
        let r = keep_nongarbage(ls.drop_last());
        if is_garbage_spec(ls.last()) {
            r
        } else {
            r.push(ls.last())
        }
    }
}

/// The chunk texts of one page, paired with its page number.
pub open spec fn page_chunk_models(content: Seq<char>, page_num: u16) -> Seq<(Seq<char>, u16)> {
    keep_nongarbage(smart_chunks_spec(content, 2000, 2, true)).map_values(
        |c: Seq<char>| (c, page_num),
    )
}

/// The chunks of a page sequence, page by page, in order.
pub open spec fn pages_chunk_models(pages: Seq<(Seq<char>, u16)>) -> Seq<(Seq<char>, u16)>
    decreases pages.len(),
{
    if pages.len() == 0 {
        Seq::<(Seq<char>, u16)>::empty()
    } else {
        pages_chunk_models(pages.drop_last()) + page_chunk_models(
            pages.last().0,
            pages.last().1,
        )
    }
}

proof fn lemma_keep_nongarbage_ok(ls: Seq<Seq<char>>)
    requires
        chunks_trimmed_nonempty(ls),
    ensures
        chunks_trimmed_nonempty(keep_nongarbage(ls)),
    decreases ls.len(),
{
    if ls.len() > 0 {
        assert(chunks_trimmed_nonempty(ls.drop_last()));
        lemma_keep_nongarbage_ok(ls.drop_last());
    }
}

/// Every chunk model of a page list is nonempty after trimming and carries a
/// page number present in the list.
proof fn lemma_pages_chunk_models_ok(pages: Seq<(Seq<char>, u16)>)
    ensures
        forall|i: int|
            0 <= i < pages_chunk_models(pages).len() ==> {
                let m = #[trigger] pages_chunk_models(pages)[i];
                m.0.len() > 0 && trim_spec(m.0) == m.0 && (exists|j: int|
                    0 <= j < pages.len() && m.1 == pages[j].1)
            },
    decreases pages.len(),
{
    if pages.len() > 0 {
        lemma_pages_chunk_models_ok(pages.drop_last());
        lemma_smart_chunks_ok(pages.last().0, 2000, 2, true);
        lemma_keep_nongarbage_ok(smart_chunks_spec(pages.last().0, 2000, 2, true));
        let prefix = pages_chunk_models(pages.drop_last());
        let own = page_chunk_models(pages.last().0, pages.last().1);
        assert forall|i: int|
            0 <= i < pages_chunk_models(pages).len() implies {
            let m = #[trigger] pages_chunk_models(pages)[i];
            m.0.len() > 0 && trim_spec(m.0) == m.0 && (exists|j: int|
                0 <= j < pages.len() && m.1 == pages[j].1)
        } by {
            let m = pages_chunk_models(pages)[i];
            if i < prefix.len() {
                assert(m == prefix[i]);
                let j = choose|j: int| 0 <= j < pages.drop_last().len() && m.1 == pages.drop_last()[j].1;
                assert(pages[j].1 == pages.drop_last()[j].1);
            } else {
                assert(m == own[i - prefix.len()]);
                let k = i - prefix.len();
                assert(own[k].0 == keep_nongarbage(
                    smart_chunks_spec(pages.last().0, 2000, 2, true),
                )[k]);
                assert(m.1 == pages[pages.len() - 1].1);
            }
        }
    }
}

/// What the text splitter yields on a text with the given character
/// capacity.
pub uninterp spec fn splitter_chunks_of(text: Seq<char>, max_chars: int) -> Seq<Seq<char>>;

/// Relies on text-splitter's `TextSplitter::chunks` with a character-count
/// capacity: chunks of the text in order, each nonempty, trimmed of
/// surrounding whitespace, and at most `max_chars` characters long.
#[verifier::external_body]
fn splitter_chunks(text: &str, max_chars: usize) -> (r: Vec<String>)
    requires
        max_chars >= 1,
    ensures
        r@.map_values(|s: String| s@) == splitter_chunks_of(text@, max_chars as int),
        forall|i: int|
            0 <= i < r@.len() ==> {
                &&& 1 <= (#[trigger] r@[i])@.len() <= max_chars
                &&& trim_spec(r@[i]@) == r@[i]@
            },
{
    let splitter = text_splitter::TextSplitter::new(max_chars);
    splitter.chunks(text).map(|c| c.to_string()).collect()
}

/// The chunks the splitter strategy yields for a page sequence: each page's
/// splitter chunks in order, tagged with that page's number.
pub open spec fn splitter_pages_models(pages: Seq<(Seq<char>, u16)>, max_chars: int) -> Seq<
    (Seq<char>, u16),
>
    decreases pages.len(),
{
    if pages.len() == 0 {
        Seq::<(Seq<char>, u16)>::empty()
    } else {
        splitter_pages_models(pages.drop_last(), max_chars) + splitter_chunks_of(
            pages.last().0,
            max_chars,
        ).map_values(|c: Seq<char>| (c, pages.last().1))
    }
}

/// Chunk each page with the splitter strategy: each chunk is at most
/// `max_chars` characters, nonempty and trimmed, and carries the number of
/// the page it came from. No chunk merges content from two pages.
pub fn chunk_pages_with_splitter(pages: &[Page], max_chars: usize) -> (r: Vec<Chunk>)
    requires
        max_chars >= 1,
    ensures
        r@.map_values(|c: Chunk| (c.content@, c.page)) == splitter_pages_models(
            pages@.map_values(|p: Page| (p.content@, p.page_num)),
            max_chars as int,
        ),
        forall|l: int|
            0 <= l < r@.len() ==> {
                &&& 1 <= (#[trigger] r@[l]).content@.len() <= max_chars
                &&& trim_spec(r@[l].content@) == r@[l].content@
                &&& exists|j: int|
                    0 <= j < pages@.len() && r@[l].page == pages@[j].page_num
            },
{
    let ghost pmodels = pages@.map_values(|p: Page| (p.content@, p.page_num));
    let mut out: Vec<Chunk> = Vec::new();
    let n = pages.len();
    for i in 0..n
        invariant
            n == pages@.len(),
            max_chars >= 1,
            pmodels == pages@.map_values(|p: Page| (p.content@, p.page_num)),
            out@.map_values(|c: Chunk| (c.content@, c.page)) =~~= splitter_pages_models(
                pmodels.take(i as int),
                max_chars as int,
            ),
            forall|l: int|
                0 <= l < out@.len() ==> {
                    &&& 1 <= (#[trigger] out@[l]).content@.len() <= max_chars
                    &&& trim_spec(out@[l].content@) == out@[l].content@
                    &&& exists|j: int|
                        0 <= j < pages@.len() && out@[l].page == pages@[j].page_num
                },
    {
        let page = &pages[i];
        let texts = splitter_chunks(page.content.as_str(), max_chars);
        let ghost chunk_views = splitter_chunks_of(page.content@, max_chars as int);
        let m = texts.len();
        let ghost base = out@.map_values(|c: Chunk| (c.content@, c.page));
        for k in 0..m
            invariant
                m == texts.len(),
                n == pages@.len(),
                i < n,
                max_chars >= 1,
                pmodels == pages@.map_values(|p: Page| (p.content@, p.page_num)),
                texts@.map_values(|s: String| s@) == chunk_views,
                forall|l: int|
                    0 <= l < texts@.len() ==> {
                        &&& 1 <= (#[trigger] texts@[l])@.len() <= max_chars
                        &&& trim_spec(texts@[l]@) == texts@[l]@
                    },
                out@.map_values(|c: Chunk| (c.content@, c.page)) =~~= base
                    + chunk_views.take(k as int).map_values(
                    |c: Seq<char>| (c, pages@[i as int].page_num),
                ),
                forall|l: int|
                    0 <= l < out@.len() ==> {
                        &&& 1 <= (#[trigger] out@[l]).content@.len() <= max_chars
                        &&& trim_spec(out@[l].content@) == out@[l].content@
                        &&& exists|j: int|
                            0 <= j < pages@.len() && out@[l].page == pages@[j].page_num
                    },
        {
            let ghost prev_map = out@.map_values(|c: Chunk| (c.content@, c.page));
            out.push(
                Chunk { content: texts[k].clone(), page: pages[i].page_num },
            );
            assert(out@.drop_last().map_values(|c: Chunk| (c.content@, c.page)) =~~= prev_map);
            assert(out@.last().content@ == texts@[k as int]@);
            assert(out@.map_values(|c: Chunk| (c.content@, c.page)) =~~= prev_map.push(
                (texts@[k as int]@, pages@[i as int].page_num),
            ));
            assert(chunk_views.take(k + 1).drop_last() =~= chunk_views.take(k as int));
            assert(chunk_views.take(k + 1).last() == texts@[k as int]@);
            assert(out@.map_values(|c: Chunk| (c.content@, c.page)) =~~= base
                + chunk_views.take(k + 1).map_values(
                |c: Seq<char>| (c, pages@[i as int].page_num),
            ));
        }
        proof {
            assert(chunk_views.take(m as int) =~= chunk_views);
            assert(pmodels.take(i + 1).drop_last() =~= pmodels.take(i as int));
            assert(pmodels.take(i + 1).last() == (
                pages@[i as int].content@,
                pages@[i as int].page_num,
            ));
            assert(out@.map_values(|c: Chunk| (c.content@, c.page)) =~~= splitter_pages_models(
                pmodels.take(i + 1),
                max_chars as int,
            ));
        }
    }
    assert(pmodels.take(n as int) =~= pmodels);
    out
}

/// Chunk each page independently with the sentence-bounded strategy — at
/// least 2000 characters per chunk, the last two sentences carried over as
/// context — drop garbage fragments, and tag every chunk with its page's
/// number. No chunk merges content from two pages, and no chunk is empty
/// after trimming.
pub fn chunk_per_page(pages: &[Page]) -> (r: Vec<Chunk>)
    ensures
        r@.map_values(|c: Chunk| (c.content@, c.page)) == pages_chunk_models(
            pages@.map_values(|p: Page| (p.content@, p.page_num)),
        ),
        forall|i: int|
            0 <= i < r@.len() ==> (#[trigger] r@[i]).content@.len() > 0 && trim_spec(
                r@[i].content@,
            ) == r@[i].content@ && (exists|j: int|
                0 <= j < pages@.len() && r@[i].page == pages@[j].page_num),
{
    let ghost pmodels = pages@.map_values(|p: Page| (p.content@, p.page_num));
    let mut out: Vec<Chunk> = Vec::new();
    let n = pages.len();
    for i in 0..n
        invariant
            n == pages@.len(),
            pmodels == pages@.map_values(|p: Page| (p.content@, p.page_num)),
            out@.map_values(|c: Chunk| (c.content@, c.page)) =~~= pages_chunk_models(
                pmodels.take(i as int),
            ),
    {
        let page = &pages[i];
        let texts = smart_chunk_text(page.content.as_str(), 2000, 2, true);
        let ghost chunk_views = smart_chunks_spec(page.content@, 2000, 2, true);
        let m = texts.len();
        let ghost base = out@.map_values(|c: Chunk| (c.content@, c.page));
        for k in 0..m
            invariant
                m == texts.len(),
                texts@.map_values(|s: String| s@) == chunk_views,
                out@.map_values(|c: Chunk| (c.content@, c.page)) =~~= base + keep_nongarbage(
                    chunk_views.take(k as int),
                ).map_values(|c: Seq<char>| (c, pages@[i as int].page_num)),
                n == pages@.len(),
                i < n,
                pmodels == pages@.map_values(|p: Page| (p.content@, p.page_num)),
        {
            assert(chunk_views.take(k + 1).drop_last() =~= chunk_views.take(k as int));
            assert(chunk_views.take(k + 1).last() == texts@[k as int]@);
            let ghost prev_map = out@.map_values(|c: Chunk| (c.content@, c.page));
            if !crate::header::is_garbage_fragment(texts[k].as_str()) {
                out.push(
                    Chunk { content: texts[k].clone(), page: pages[i].page_num },
                );
                assert(out@.drop_last().map_values(|c: Chunk| (c.content@, c.page)) =~~= prev_map);
                assert(out@.last().content@ == texts@[k as int]@);
                assert(out@.map_values(|c: Chunk| (c.content@, c.page)) =~~= prev_map.push(
                    (texts@[k as int]@, pages@[i as int].page_num),
                ));
            }
            assert(out@.map_values(|c: Chunk| (c.content@, c.page)) =~~= base + keep_nongarbage(
                chunk_views.take(k + 1),
            ).map_values(|c: Seq<char>| (c, pages@[i as int].page_num)));
        }
        proof {
            assert(chunk_views.take(m as int) =~= chunk_views);
            assert(pmodels.take(i + 1).drop_last() =~= pmodels.take(i as int));
            assert(pmodels.take(i + 1).last() == (pages@[i as int].content@, pages@[i as int].page_num));
            assert(out@.map_values(|c: Chunk| (c.content@, c.page)) =~~= pages_chunk_models(
                pmodels.take(i + 1),
            ));
        }
    }
    assert(pmodels.take(n as int) =~= pmodels);
    proof {
        lemma_pages_chunk_models_ok(pmodels);
        assert forall|i: int|
            0 <= i < out@.len() implies (#[trigger] out@[i]).content@.len() > 0 && trim_spec(
            out@[i].content@,
        ) == out@[i].content@ && (exists|j: int|
            0 <= j < pages@.len() && out@[i].page == pages@[j].page_num) by {
            assert(out@.map_values(|c: Chunk| (c.content@, c.page))[i] == (
                out@[i].content@,
                out@[i].page,
            ));
            let m = pages_chunk_models(pmodels)[i];
            let j = choose|j: int| 0 <= j < pmodels.len() && m.1 == pmodels[j].1;
            assert(pmodels[j] == (pages@[j].content@, pages@[j].page_num));
        }
    }
    out
}

} // verus!
