//! The document-side logic of the retrieval service: splitting documents
//! into chunks, building full-text queries, planning inserts, merging
//! candidate rankings and assembling the answer.
use vstd::prelude::*;
use vstd::std_specs::iter::IteratorSpec;
use std::collections::HashMap;
use crate::hash::{hash, spec_hash};
use crate::text::{decimal, is_space, scan_words, join, join_range, lemma_join_concat, lemma_join_nonempty, push_char, push_decimal, split_whitespace, views, words};

verus! {

/// Number of words in every chunk but the last.
pub const NUMBER_OF_WORDS_PER_CHUNK: usize = 200;

/// The single space that joins the words of a chunk.
pub open spec fn space() -> Seq<char> {
    seq![' ']
}

/// The chunks of a word sequence: consecutive groups of
/// `NUMBER_OF_WORDS_PER_CHUNK` words, each joined by single spaces, then
/// the remaining words (if any) as one last, shorter chunk.
pub open spec fn chunks_of(ws: Seq<Seq<char>>) -> Seq<Seq<char>> {
    let w = NUMBER_OF_WORDS_PER_CHUNK as int;
    let n = ws.len() as int;
    let k = n / w;
    Seq::new(k as nat, |i: int| join(ws.subrange(i * w, i * w + w), space())) + if n % w != 0 {
        seq![join(ws.subrange(k * w, n), space())]
    } else {
        seq![]
    }
}

/// The full chunks among the first `c` groups of words.
pub open spec fn full_chunks(ws: Seq<Seq<char>>, c: int) -> Seq<Seq<char>> {
    let w = NUMBER_OF_WORDS_PER_CHUNK as int;
    Seq::new(c as nat, |i: int| join(ws.subrange(i * w, i * w + w), space()))
}

proof fn lemma_full_chunks_rejoin(ws: Seq<Seq<char>>, c: int)
    requires
        1 <= c,
        c * (NUMBER_OF_WORDS_PER_CHUNK as int) <= ws.len(),
    ensures
        join(full_chunks(ws, c), space()) == join(
            ws.take(c * (NUMBER_OF_WORDS_PER_CHUNK as int)),
            space(),
        ),
    decreases c,
{
    let w = NUMBER_OF_WORDS_PER_CHUNK as int;
    if c == 1 {
        assert(ws.take(w) =~= ws.subrange(0, w));
    } else {
        lemma_full_chunks_rejoin(ws, c - 1);
        assert(full_chunks(ws, c).drop_last() =~= full_chunks(ws, c - 1));
        let head = ws.take((c - 1) * w);
        let group = ws.subrange((c - 1) * w, (c - 1) * w + w);
        lemma_join_concat(head, group, space());
        assert(head + group =~= ws.take(c * w));
    }
}

/// Chunking keeps every word, in order: the chunks joined by single
/// spaces are the words joined by single spaces.
pub proof fn law_chunks_rejoin(ws: Seq<Seq<char>>)
    ensures
        join(chunks_of(ws), space()) == join(ws, space()),
{
    let w = NUMBER_OF_WORDS_PER_CHUNK as int;
    let n = ws.len() as int;
    let k = n / w;
    assert(chunks_of(ws) =~= full_chunks(ws, k) + if n % w != 0 {
        seq![join(ws.subrange(k * w, n), space())]
    } else {
        seq![]
    });
    if n % w != 0 {
        let tail = ws.subrange(k * w, n);
        if k == 0 {
            assert(chunks_of(ws) =~= seq![join(tail, space())]);
            assert(tail =~= ws);
        } else {
            lemma_full_chunks_rejoin(ws, k);
            assert(chunks_of(ws).drop_last() =~= full_chunks(ws, k));
            lemma_join_concat(ws.take(k * w), tail, space());
            assert(ws.take(k * w) + tail =~= ws);
        }
    } else {
        if k == 0 {
            assert(chunks_of(ws) =~= seq![]);
            assert(ws =~= seq![]);
        } else {
            lemma_full_chunks_rejoin(ws, k);
            assert(chunks_of(ws) =~= full_chunks(ws, k));
            assert(ws.take(k * w) =~= ws);
        }
    }
}

/// Chunking cuts the words into consecutive groups of
/// `NUMBER_OF_WORDS_PER_CHUNK`: there are `ceil(n / NUMBER_OF_WORDS_PER_CHUNK)`
/// chunks for `n` words; chunk `i` is words `i * NUMBER_OF_WORDS_PER_CHUNK`
/// onwards, joined by single spaces; every chunk but the last holds exactly
/// `NUMBER_OF_WORDS_PER_CHUNK` words and the last holds between one and that
/// many.
pub proof fn law_chunk_sizes(ws: Seq<Seq<char>>)
    ensures
        chunks_of(ws).len() == (ws.len() + 199) / 200,
        forall|i: int|
            0 <= i < chunks_of(ws).len() ==> #[trigger] chunks_of(ws)[i] == join(
                ws.subrange(
                    i * 200,
                    if i * 200 + 200 <= ws.len() {
                        i * 200 + 200
                    } else {
                        ws.len() as int
                    },
                ),
                space(),
            ),
        chunks_of(ws).len() > 0 ==> 0 < ws.len() - (chunks_of(ws).len() - 1) * 200 <= 200,
{
    let n = ws.len() as int;
    let k = n / 200;
    assert(NUMBER_OF_WORDS_PER_CHUNK as int == 200);
    assert(k * 200 <= n < k * 200 + 200);
    if n % 200 != 0 {
        assert(k * 200 < n);
        assert((n + 199) / 200 == k + 1);
    } else {
        assert(k * 200 == n);
        assert((n + 199) / 200 == k);
    }
    assert forall|i: int| 0 <= i < chunks_of(ws).len() implies #[trigger] chunks_of(ws)[i] == join(
        ws.subrange(
            i * 200,
            if i * 200 + 200 <= ws.len() {
                i * 200 + 200
            } else {
                ws.len() as int
            },
        ),
        space(),
    ) by {
        if i < k {
            assert(i * 200 + 200 <= k * 200);
        } else {
            assert(i == k);
            assert(k * 200 + 200 > n);
        }
    }
}

/// Splits `text` into chunks of `NUMBER_OF_WORDS_PER_CHUNK` words.
pub fn chunk(text: &str) -> (chunks: Vec<String>)
    ensures
        views(chunks@) == chunks_of(words(text@)),
{
    let all_words: Vec<String> = split_whitespace(text);
    let number_of_words: usize = all_words.len();
    let number_of_chunks: usize = number_of_words / NUMBER_OF_WORDS_PER_CHUNK;
    let ghost ws = words(text@);
    let ghost w = NUMBER_OF_WORDS_PER_CHUNK as int;
    let sep: &str = " ";
    proof {
        reveal_strlit(" ");
        assert(sep@ =~= space());
    }
    let mut chunks: Vec<String> = Vec::new();
    let mut c: usize = 0;
    while c < number_of_chunks
        invariant
            views(all_words@) == ws,
            number_of_words == ws.len(),
            number_of_chunks == number_of_words / NUMBER_OF_WORDS_PER_CHUNK,
            sep@ == space(),
            w == NUMBER_OF_WORDS_PER_CHUNK as int,
            c <= number_of_chunks,
            views(chunks@) =~= Seq::new(
                c as nat,
                |i: int| join(ws.subrange(i * w, i * w + w), space()),
            ),
        decreases number_of_chunks - c,
    {
        let lo: usize = c * NUMBER_OF_WORDS_PER_CHUNK;
        let hi: usize = lo + NUMBER_OF_WORDS_PER_CHUNK;
        let sentence: String = join_range(&all_words, lo, hi, sep);
        assert(views(all_words@.subrange(lo as int, hi as int)) =~= ws.subrange(lo as int, hi as int));
        let ghost prev = chunks@;
        chunks.push(sentence);
        assert(lo == c * w && hi == c * w + w);
        assert(views(chunks@) =~= views(prev).push(sentence@));
        c = c + 1;
    }
    let tail_start: usize = number_of_chunks * NUMBER_OF_WORDS_PER_CHUNK;
    if tail_start < number_of_words {
        let tail: String = join_range(&all_words, tail_start, number_of_words, sep);
        assert(views(all_words@.subrange(tail_start as int, number_of_words as int)) =~= ws.subrange(
            tail_start as int,
            number_of_words as int,
        ));
        chunks.push(tail);
    }
    assert(views(chunks@) =~= chunks_of(ws));
    chunks
}

/// `t` with every double quote doubled, as full-text query strings
/// escape them.
pub open spec fn escape_quotes(t: Seq<char>) -> Seq<char>
    decreases t.len(),
{
    if t.len() == 0 {
        seq![]
    } else {
        escape_quotes(t.drop_last()) + if t.last() == '"' {
            seq!['"', '"']
        } else {
            seq![t.last()]
        }
    }
}

/// `t` as one quoted full-text term.
pub open spec fn quote_term(t: Seq<char>) -> Seq<char> {
    seq!['"'] + escape_quotes(t) + seq!['"']
}

/// The separator of query terms.
pub open spec fn or_separator() -> Seq<char> {
    seq![' ', 'O', 'R', ' ']
}

/// The full-text query that matches any word of `cleaned`: each word
/// quoted, the terms joined by ` OR `.
pub open spec fn spec_match_query(cleaned: Seq<char>) -> Seq<char> {
    join(words(cleaned).map_values(|t: Seq<char>| quote_term(t)), or_separator())
}

/// Scanning past a space ends the word being read.
proof fn lemma_scan_space(c: Seq<char>)
    ensures
        scan_words(c + seq![' ']) == (words(c), Seq::<char>::empty()),
{
    assert((c + seq![' ']).drop_last() =~= c);
    assert(is_space(' '));
}

/// Scanning a run of non-space characters after a finished word extends
/// the word being read by that run.
proof fn lemma_scan_run(s: Seq<char>, w: Seq<char>)
    requires
        scan_words(s).1.len() == 0,
        forall|i: int| 0 <= i < w.len() ==> !is_space(#[trigger] w[i]),
    ensures
        scan_words(s + w) == (scan_words(s).0, w),
    decreases w.len(),
{
    if w.len() == 0 {
        assert(s + w =~= s);
    } else {
        lemma_scan_run(s, w.drop_last());
        assert((s + w).drop_last() =~= s + w.drop_last());
        assert(w.drop_last().push(w.last()) =~= w);
    }
}

/// The words of a text followed by a space and one more word are the
/// text's words and that word.
proof fn lemma_words_append_word(c: Seq<char>, w: Seq<char>)
    requires
        w.len() > 0,
        forall|i: int| 0 <= i < w.len() ==> !is_space(#[trigger] w[i]),
    ensures
        words(c + seq![' '] + w) == words(c).push(w),
{
    lemma_scan_space(c);
    lemma_scan_run(c + seq![' '], w);
}

/// A query matches any one of its words: appending a word to a search text
/// appends ` OR ` and that word, quoted, to the query, however many words
/// came before; a text of one word gives that word quoted alone.
pub proof fn law_match_query_or_of_words(cleaned: Seq<char>, w: Seq<char>)
    requires
        w.len() > 0,
        forall|i: int| 0 <= i < w.len() ==> !is_space(#[trigger] w[i]),
    ensures
        words(cleaned).len() > 0 ==> spec_match_query(cleaned + seq![' '] + w)
            == spec_match_query(cleaned) + seq![' ', 'O', 'R', ' '] + quote_term(w),
        words(cleaned).len() == 0 ==> spec_match_query(cleaned + seq![' '] + w) == seq!['"']
            + escape_quotes(w) + seq!['"'],
{
    lemma_words_append_word(cleaned, w);
    let ws = words(cleaned);
    let f = |t: Seq<char>| quote_term(t);
    let terms = ws.push(w).map_values(f);
    assert(terms.drop_last() =~= ws.map_values(f));
    assert(terms.last() == quote_term(w));
    if ws.len() == 0 {
        assert(terms.len() == 1);
    }
}

/// Quotes one term.
fn quote(term: &str) -> (quoted: String)
    ensures
        quoted@ == quote_term(term@),
{
    let mut quoted: String = String::new();
    push_char(&mut quoted, '"');
    for c in it: term.chars()
        invariant
            it.seq() == term@,
            quoted@ == seq!['"'] + escape_quotes(term@.take(it.index() as int)),
    {
        assert(term@.take(it.index() + 1).drop_last() =~= term@.take(it.index() as int));
        if c == '"' {
            push_char(&mut quoted, '"');
            push_char(&mut quoted, '"');
        } else {
            push_char(&mut quoted, c);
        }
        assert(quoted@ =~= seq!['"'] + escape_quotes(term@.take(it.index() + 1)));
    }
    assert(term@.take(term@.len() as int) =~= term@);
    push_char(&mut quoted, '"');
    assert(quoted@ =~= quote_term(term@));
    quoted
}

/// Builds the full-text query for a cleaned search text: every word quoted
/// (inner quotes doubled), joined by ` OR `; empty when there is no word.
pub fn match_query(cleaned: &str) -> (query: String)
    ensures
        query@ == spec_match_query(cleaned@),
        query@.len() == 0 <==> words(cleaned@).len() == 0,
{
    let tokens: Vec<String> = split_whitespace(cleaned);
    let ghost ws = words(cleaned@);
    let ghost terms = ws.map_values(|t: Seq<char>| quote_term(t));
    let mut quoted: Vec<String> = Vec::new();
    let mut i: usize = 0;
    while i < tokens.len()
        invariant
            views(tokens@) == ws,
            terms == ws.map_values(|t: Seq<char>| quote_term(t)),
            i <= tokens@.len(),
            views(quoted@) =~= terms.take(i as int),
        decreases tokens@.len() - i,
    {
        let q: String = quote(tokens[i].as_str());
        assert(tokens@[i as int]@ == ws[i as int]);
        assert(terms[i as int] == quote_term(ws[i as int]));
        let ghost prev = quoted@;
        quoted.push(q);
        assert(views(quoted@) =~= views(prev).push(q@));
        assert(views(quoted@) =~= terms.take(i + 1));
        i = i + 1;
    }
    let sep: &str = " OR ";
    proof {
        reveal_strlit(" OR ");
        assert(sep@ =~= or_separator());
        assert(terms.take(terms.len() as int) =~= terms);
    }
    let query: String = join_range(&quoted, 0, quoted.len(), sep);
    assert(quoted@.subrange(0, quoted@.len() as int) =~= quoted@);
    proof {
        if ws.len() > 0 {
            lemma_join_nonempty(terms, or_separator());
        }
    }
    query
}

/// The decimal forms of `rowids`.
pub open spec fn decimals(rowids: Seq<i64>) -> Seq<Seq<char>> {
    rowids.map_values(|r: i64| decimal(r as int))
}

/// Writes `rowids` in decimal, joined by `delimiter`.
pub fn join_rowids(rowids: &Vec<i64>, delimiter: &str) -> (joined: String)
    ensures
        joined@ == join(decimals(rowids@), delimiter@),
{
    let mut joined: String = String::new();
    let mut i: usize = 0;
    while i < rowids.len()
        invariant
            i <= rowids@.len(),
            joined@ == join(decimals(rowids@.take(i as int)), delimiter@),
        decreases rowids@.len() - i,
    {
        assert(decimals(rowids@.take(i + 1)).drop_last() =~= decimals(rowids@.take(i as int)));
        if i > 0 {
            joined.append(delimiter);
        }
        push_decimal(&mut joined, rowids[i]);
        i = i + 1;
    }
    assert(rowids@.take(rowids@.len() as int) =~= rowids@);
    joined
}

/// The query that fetches the stored texts of `rowids`.
pub fn rowid_select_query(rowids: &Vec<i64>) -> (query: String)
    ensures
        query@ == "\n    SELECT rowid, text\n    FROM documents\n    WHERE rowid IN ("@ + join(
            decimals(rowids@),
            seq![','],
        ) + ");\n"@,
{
    let mut query: String = String::new();
    query.append("\n    SELECT rowid, text\n    FROM documents\n    WHERE rowid IN (");
    let comma: &str = ",";
    proof {
        reveal_strlit(",");
        assert(comma@ =~= seq![',']);
    }
    let list: String = join_rowids(rowids, comma);
    query.append(list.as_str());
    query.append(");\n");
    query
}

/// The deduplication key of a text: its hash, reinterpreted as the signed
/// integer that the database stores.
pub fn hash_key(text: &str) -> (key: i64)
    ensures
        key == spec_hash(text@) as i64,
{
    hash(text) as i64
}

/// What inserting one text does.
pub enum InsertPlan {
    /// The text is stored already: nothing is written and the insert
    /// answers 0.
    Duplicate,
    /// Store the text under `rowid` and remember `text_hash` as seen.
    Store { rowid: i64, text_hash: i64 },
}

/// Decides an insert: a text whose key is already stored is skipped;
/// otherwise it gets the row after the `stored_vectors` vectors already in
/// the vector store, and its deduplication key is recorded.
pub fn plan_insert(text: &str, duplicate: bool, stored_vectors: usize) -> (plan: InsertPlan)
    requires
        stored_vectors < i64::MAX,
    ensures
        duplicate ==> plan is Duplicate,
        !duplicate ==> plan == (InsertPlan::Store {
            rowid: (stored_vectors + 1) as i64,
            text_hash: spec_hash(text@) as i64,
        }),
{
    if duplicate {
        return InsertPlan::Duplicate;
    }
    let rowid: i64 = stored_vectors as i64 + 1;
    let text_hash: i64 = hash_key(text);
    InsertPlan::Store { rowid, text_hash }
}

/// Turns vector-store slots into row ids: slot `s` holds the text of row
/// `s + 1`.
pub fn slots_to_rowids(slots: &Vec<i64>) -> (rowids: Vec<i64>)
    requires
        forall|j: int| 0 <= j < slots@.len() ==> slots@[j] < i64::MAX,
    ensures
        rowids@ == slots@.map_values(|s: i64| (s + 1) as i64),
{
    let mut rowids: Vec<i64> = Vec::new();
    let mut i: usize = 0;
    while i < slots.len()
        invariant
            i <= slots@.len(),
            forall|j: int| 0 <= j < slots@.len() ==> slots@[j] < i64::MAX,
            rowids@ =~= slots@.take(i as int).map_values(|s: i64| (s + 1) as i64),
        decreases slots@.len() - i,
    {
        rowids.push(slots[i] + 1);
        i = i + 1;
    }
    assert(slots@.take(slots@.len() as int) =~= slots@);
    rowids
}

/// The first `max(limit, 0)` candidates.
pub fn top_candidates(fused: &Vec<i64>, limit: i32) -> (top: Vec<i64>)
    ensures
        top@ == fused@.take(if limit <= 0 {
            0
        } else if limit > fused@.len() {
            fused@.len() as int
        } else {
            limit as int
        }),
{
    let mut top: Vec<i64> = Vec::new();
    let wanted: usize = if limit <= 0 {
        0
    } else {
        limit as usize
    };
    let mut i: usize = 0;
    while i < fused.len() && i < wanted
        invariant
            i <= fused@.len(),
            i <= wanted,
            wanted == (if limit <= 0 {
                0
            } else {
                limit as int
            }),
            top@ =~= fused@.take(i as int),
        decreases fused@.len() - i,
    {
        top.push(fused[i]);
        i = i + 1;
    }
    top
}

/// Every candidate occurrence of the ranked lists, list by list, each as
/// (row id, rank within its list).
pub open spec fn occurrences(lists: Seq<Seq<i64>>) -> Seq<(i64, nat)>
    decreases lists.len(),
{
    if lists.len() == 0 {
        seq![]
    } else {
        occurrences(lists.drop_last()) + lists.last().map(|j: int, r: i64| (r, j as nat))
    }
}

/// The position of the last `r` in `keys`, or -1.
pub open spec fn key_pos(keys: Seq<i64>, r: i64) -> int
    decreases keys.len(),
{
    if keys.len() == 0 {
        -1
    } else if keys.last() == r {
        keys.len() - 1
    } else {
        key_pos(keys.drop_last(), r)
    }
}

/// The row ids of a grouping.
pub open spec fn group_keys(g: Seq<(i64, Seq<nat>)>) -> Seq<i64> {
    g.map_values(|e: (i64, Seq<nat>)| e.0)
}

/// Groups occurrences by row id: the row ids in order of first occurrence,
/// each with the ranks of its occurrences in order.
pub open spec fn group_ranks(occ: Seq<(i64, nat)>) -> Seq<(i64, Seq<nat>)>
    decreases occ.len(),
{
    if occ.len() == 0 {
        seq![]
    } else {
        let g = group_ranks(occ.drop_last());
        let r = occ.last().0;
        let k = occ.last().1;
        let p = key_pos(group_keys(g), r);
        if p >= 0 {
            g.update(p, (r, g[p].1.push(k)))
        } else {
            g.push((r, seq![k]))
        }
    }
}

/// The ranks that fusion scores: for every row id in any list, in order
/// of first occurrence, its ranks in every list it occurs in.
pub open spec fn spec_fuse_ranks(lists: Seq<Seq<i64>>) -> Seq<(i64, Seq<nat>)> {
    group_ranks(occurrences(lists))
}

/// The view of a grouping held in executable vectors.
pub open spec fn ranks_view(keys: Seq<i64>, ranks: Seq<Vec<usize>>) -> Seq<(i64, Seq<nat>)> {
    Seq::new(keys.len(), |i: int| (keys[i], ranks[i]@.map_values(|k: usize| k as nat)))
}

/// The view of a fused ranking.
pub open spec fn fused_view(f: Seq<(i64, Vec<usize>)>) -> Seq<(i64, Seq<nat>)> {
    f.map_values(|e: (i64, Vec<usize>)| (e.0, e.1@.map_values(|k: usize| k as nat)))
}

/// The position of the last `r` in `keys`.
fn find_key(keys: &Vec<i64>, r: i64) -> (pos: Option<usize>)
    ensures
        match pos {
            Some(p) => p < keys@.len() && key_pos(keys@, r) == p && keys@[p as int] == r,
            None => key_pos(keys@, r) == -1,
        },
{
    let mut p: usize = keys.len();
    assert(keys@.take(p as int) =~= keys@);
    while p > 0
        invariant
            p <= keys@.len(),
            key_pos(keys@, r) == key_pos(keys@.take(p as int), r),
        decreases p,
    {
        assert(keys@.take(p as int).drop_last() =~= keys@.take(p - 1));
        if keys[p - 1] == r {
            return Some(p - 1);
        }
        p = p - 1;
    }
    None
}

/// The row ids of occurrences.
pub open spec fn occurrence_ids(occ: Seq<(i64, nat)>) -> Seq<i64> {
    occ.map_values(|e: (i64, nat)| e.0)
}

proof fn lemma_key_pos(keys: Seq<i64>, r: i64)
    ensures
        -1 <= key_pos(keys, r) < keys.len(),
        key_pos(keys, r) >= 0 ==> keys[key_pos(keys, r)] == r,
        key_pos(keys, r) == -1 <==> !keys.contains(r),
    decreases keys.len(),
{
    if keys.len() > 0 {
        lemma_key_pos(keys.drop_last(), r);
        if keys.last() != r && keys.contains(r) {
            let i = choose|i: int| 0 <= i < keys.len() && keys[i] == r;
            assert(keys.drop_last()[i] == r);
        }
    }
}

proof fn lemma_group_keys(occ: Seq<(i64, nat)>)
    ensures
        group_keys(group_ranks(occ)).no_duplicates(),
        group_keys(group_ranks(occ)).to_set() == occurrence_ids(occ).to_set(),
    decreases occ.len(),
{
    if occ.len() > 0 {
        let prev = occ.drop_last();
        lemma_group_keys(prev);
        let g = group_ranks(prev);
        let r = occ.last().0;
        let keys = group_keys(g);
        lemma_key_pos(keys, r);
        let p = key_pos(keys, r);
        assert(occurrence_ids(occ) =~= occurrence_ids(prev).push(r));
        occurrence_ids(prev).lemma_push_to_set_commute(r);
        if p >= 0 {
            assert(group_keys(group_ranks(occ)) =~= keys);
            assert(keys.to_set().contains(r));
            assert(keys.to_set().insert(r) =~= keys.to_set());
        } else {
            assert(group_keys(group_ranks(occ)) =~= keys.push(r));
            keys.lemma_push_to_set_commute(r);
            assert forall|i: int, j: int|
                0 <= i < keys.len() + 1 && 0 <= j < keys.len() + 1 && i != j implies keys.push(
                r,
            )[i] != keys.push(r)[j] by {
                if i == keys.len() {
                    assert(keys.contains(keys[j]));
                } else if j == keys.len() {
                    assert(keys.contains(keys[i]));
                }
            }
        }
    }
}

proof fn lemma_occurrence_ids(lists: Seq<Seq<i64>>)
    ensures
        occurrence_ids(occurrences(lists)) == lists.flatten(),
    decreases lists.len(),
{
    if lists.len() > 0 {
        let prev = lists.drop_last();
        lemma_occurrence_ids(prev);
        assert(occurrence_ids(occurrences(lists)) =~= occurrence_ids(occurrences(prev))
            + lists.last());
        prev.lemma_flatten_push(lists.last());
        assert(prev.push(lists.last()) =~= lists);
    }
}

/// Fusion scores every candidate exactly once: the row ids of the fused
/// ranking are distinct, and they are exactly the row ids of all the
/// ranked lists.
pub proof fn law_fuse_ranks_each_id_once(lists: Seq<Seq<i64>>)
    ensures
        group_keys(spec_fuse_ranks(lists)).no_duplicates(),
        group_keys(spec_fuse_ranks(lists)).to_set() == lists.flatten().to_set(),
{
    lemma_group_keys(occurrences(lists));
    lemma_occurrence_ids(lists);
}

/// Every occurrence records a true position: its row id stands at its
/// rank in one of the lists.
proof fn lemma_occurrences_sound(lists: Seq<Seq<i64>>)
    ensures
        forall|i: int|
            0 <= i < occurrences(lists).len() ==> exists|l: int|
                0 <= l < lists.len() && (#[trigger] occurrences(lists)[i]).1 < lists[l].len()
                    && lists[l][occurrences(lists)[i].1 as int] == occurrences(lists)[i].0,
    decreases lists.len(),
{
    if lists.len() > 0 {
        let prev = lists.drop_last();
        lemma_occurrences_sound(prev);
        let a = occurrences(prev);
        let last = lists.last();
        let b = last.map(|j: int, r: i64| (r, j as nat));
        assert(occurrences(lists) == a + b);
        assert forall|i: int| 0 <= i < occurrences(lists).len() implies exists|l: int|
            0 <= l < lists.len() && (#[trigger] occurrences(lists)[i]).1 < lists[l].len()
                && lists[l][occurrences(lists)[i].1 as int] == occurrences(lists)[i].0 by {
            if i < a.len() {
                assert(occurrences(lists)[i] == a[i]);
                let l = choose|l: int|
                    0 <= l < prev.len() && a[i].1 < prev[l].len() && prev[l][a[i].1 as int]
                        == a[i].0;
                assert(prev[l] == lists[l]);
            } else {
                let j = i - a.len();
                assert(occurrences(lists)[i] == b[j]);
                assert(lists[lists.len() - 1] == last);
            }
        }
    }
}

/// Every position of every list is recorded as an occurrence.
proof fn lemma_occurrences_complete(lists: Seq<Seq<i64>>)
    ensures
        forall|l: int, j: int|
            0 <= l < lists.len() && 0 <= j < lists[l].len() ==> occurrences(lists).contains(
                (#[trigger] lists[l][j], j as nat),
            ),
    decreases lists.len(),
{
    if lists.len() > 0 {
        let prev = lists.drop_last();
        lemma_occurrences_complete(prev);
        let a = occurrences(prev);
        let last = lists.last();
        let b = last.map(|j: int, r: i64| (r, j as nat));
        assert(occurrences(lists) == a + b);
        assert forall|l: int, j: int| 0 <= l < lists.len() && 0 <= j < lists[l].len() implies occurrences(
            lists,
        ).contains((#[trigger] lists[l][j], j as nat)) by {
            if l < prev.len() {
                assert(prev[l] == lists[l]);
                assert(a.contains((prev[l][j], j as nat)));
                let i = choose|i: int| 0 <= i < a.len() && a[i] == (prev[l][j], j as nat);
                assert(occurrences(lists)[i] == a[i]);
            } else {
                assert(lists[l] == last);
                assert(occurrences(lists)[a.len() + j] == b[j]);
            }
        }
    }
}

/// Every rank in a grouping comes from an occurrence of its row id.
proof fn lemma_group_sound(occ: Seq<(i64, nat)>)
    ensures
        forall|p: int, q: int|
            0 <= p < group_ranks(occ).len() && 0 <= q < group_ranks(occ)[p].1.len()
                ==> occ.contains((group_ranks(occ)[p].0, #[trigger] group_ranks(occ)[p].1[q])),
    decreases occ.len(),
{
    if occ.len() > 0 {
        let prev = occ.drop_last();
        lemma_group_sound(prev);
        let g = group_ranks(prev);
        let r = occ.last().0;
        let k = occ.last().1;
        let keys = group_keys(g);
        lemma_key_pos(keys, r);
        let p0 = key_pos(keys, r);
        let h = group_ranks(occ);
        assert forall|p: int, q: int| 0 <= p < h.len() && 0 <= q < h[p].1.len() implies occ.contains(
            (h[p].0, #[trigger] h[p].1[q]),
        ) by {
            if p < g.len() && !(p == p0 && q == g[p].1.len()) {
                assert(h[p].0 == g[p].0) by {
                    if p == p0 {
                        assert(keys[p0] == r);
                    }
                }
                assert(h[p].1[q] == g[p].1[q]);
                assert(prev.contains((g[p].0, g[p].1[q])));
                let i = choose|i: int| 0 <= i < prev.len() && prev[i] == (g[p].0, g[p].1[q]);
                assert(occ[i] == prev[i]);
            } else {
                assert(h[p] == (r, g[p0].1.push(k)) || h[p] == (r, seq![k]));
                assert(h[p].1[q] == k);
                assert(occ[occ.len() - 1] == (r, k));
            }
        }
    }
}

/// Every occurrence is recorded under its row id.
proof fn lemma_group_complete(occ: Seq<(i64, nat)>)
    ensures
        forall|i: int|
            0 <= i < occ.len() ==> exists|p: int|
                0 <= p < group_ranks(occ).len() && group_ranks(occ)[p].0 == (#[trigger] occ[i]).0
                    && group_ranks(occ)[p].1.contains(occ[i].1),
    decreases occ.len(),
{
    if occ.len() > 0 {
        let prev = occ.drop_last();
        lemma_group_complete(prev);
        let g = group_ranks(prev);
        let r = occ.last().0;
        let k = occ.last().1;
        let keys = group_keys(g);
        lemma_key_pos(keys, r);
        let p0 = key_pos(keys, r);
        let h = group_ranks(occ);
        assert forall|i: int| 0 <= i < occ.len() implies exists|p: int|
            0 <= p < h.len() && h[p].0 == (#[trigger] occ[i]).0 && h[p].1.contains(occ[i].1) by {
            if i < prev.len() {
                assert(occ[i] == prev[i]);
                let p = choose|p: int|
                    0 <= p < g.len() && g[p].0 == prev[i].0 && g[p].1.contains(prev[i].1);
                let q = choose|q: int| 0 <= q < g[p].1.len() && g[p].1[q] == prev[i].1;
                if p == p0 {
                    assert(keys[p0] == r);
                    assert(h[p] == (r, g[p].1.push(k)));
                    assert(h[p].1[q] == prev[i].1);
                } else {
                    assert(h[p] == g[p]);
                }
            } else {
                if p0 >= 0 {
                    assert(h[p0] == (r, g[p0].1.push(k)));
                    assert(h[p0].1[g[p0].1.len() as int] == k);
                } else {
                    assert(h[g.len() as int] == (r, seq![k]));
                    assert(h[g.len() as int].1[0] == k);
                }
            }
        }
    }
}

/// Fusion records each candidate at its own positions: every rank listed
/// for a row id is a position at which that row id stands in one of the
/// ranked lists, and every position of every list is listed among the
/// ranks of the row id that stands there.
pub proof fn law_fuse_ranks_are_positions(lists: Seq<Seq<i64>>)
    ensures
        forall|p: int, q: int|
            0 <= p < spec_fuse_ranks(lists).len() && 0 <= q < spec_fuse_ranks(lists)[p].1.len()
                ==> exists|l: int|
                0 <= l < lists.len() && (#[trigger] spec_fuse_ranks(lists)[p].1[q]) < lists[l].len()
                    && lists[l][spec_fuse_ranks(lists)[p].1[q] as int] == spec_fuse_ranks(lists)[p].0,
        forall|l: int, j: int|
            0 <= l < lists.len() && 0 <= j < lists[l].len() ==> exists|p: int|
                0 <= p < spec_fuse_ranks(lists).len() && spec_fuse_ranks(lists)[p].0
                    == #[trigger] lists[l][j] && spec_fuse_ranks(lists)[p].1.contains(j as nat),
{
    let occ = occurrences(lists);
    let g = spec_fuse_ranks(lists);
    assert(g == group_ranks(occ));
    assert forall|p: int, q: int| 0 <= p < g.len() && 0 <= q < g[p].1.len() implies exists|l: int|
        0 <= l < lists.len() && (#[trigger] g[p].1[q]) < lists[l].len() && lists[l][g[p].1[q] as int]
            == g[p].0 by {
        lemma_group_sound(occ);
        assert(occ.contains((g[p].0, g[p].1[q])));
        let i = choose|i: int| 0 <= i < occ.len() && occ[i] == (g[p].0, g[p].1[q]);
        lemma_occurrences_sound(lists);
        assert(occ[i].1 == g[p].1[q]);
    }
    assert forall|l: int, j: int| 0 <= l < lists.len() && 0 <= j < lists[l].len() implies exists|p: int|
        0 <= p < g.len() && g[p].0 == #[trigger] lists[l][j] && g[p].1.contains(j as nat) by {
        lemma_occurrences_complete(lists);
        assert(occ.contains((lists[l][j], j as nat)));
        let i = choose|i: int| 0 <= i < occ.len() && occ[i] == (lists[l][j], j as nat);
        lemma_group_complete(occ);
        assert(occ[i].0 == lists[l][j]);
    }
}

/// A list of distinct row ids groups into one entry per position.
proof fn lemma_group_distinct(m: Seq<i64>)
    requires
        m.no_duplicates(),
    ensures
        group_ranks(m.map(|j: int, r: i64| (r, j as nat))) == m.map(
            |j: int, r: i64| (r, seq![j as nat]),
        ),
    decreases m.len(),
{
    let occ = m.map(|j: int, r: i64| (r, j as nat));
    let want = m.map(|j: int, r: i64| (r, seq![j as nat]));
    if m.len() == 0 {
        assert(want =~= seq![]);
    } else {
        let prev = m.drop_last();
        assert(prev.no_duplicates());
        lemma_group_distinct(prev);
        assert(occ.drop_last() =~= prev.map(|j: int, r: i64| (r, j as nat)));
        let g = prev.map(|j: int, r: i64| (r, seq![j as nat]));
        assert(group_keys(g) =~= prev);
        let r = m.last();
        assert(!prev.contains(r)) by {
            if prev.contains(r) {
                let i = choose|i: int| 0 <= i < prev.len() && prev[i] == r;
                assert(m[i] == m[m.len() - 1]);
            }
        }
        lemma_key_pos(prev, r);
        assert(group_ranks(occ) =~= want);
    }
}

/// A single ranking of distinct row ids fuses to each row id with its own
/// position as its only rank, in the ranking's order.
pub proof fn law_fuse_ranks_single_list(ranking: Seq<i64>)
    requires
        ranking.no_duplicates(),
    ensures
        spec_fuse_ranks(seq![ranking]) == ranking.map(|j: int, r: i64| (r, seq![j as nat])),
{
    let lists = seq![ranking];
    assert(lists.drop_last() =~= Seq::<Seq<i64>>::empty());
    assert(occurrences(lists.drop_last()) =~= Seq::<(i64, nat)>::empty());
    assert(lists.last() == ranking);
    assert(occurrences(lists) =~= ranking.map(|j: int, r: i64| (r, j as nat)));
    lemma_group_distinct(ranking);
}

/// A copy of a rank list.
fn copy_ranks(v: &Vec<usize>) -> (copy: Vec<usize>)
    ensures
        copy@ == v@,
{
    let mut copy: Vec<usize> = Vec::new();
    let mut i: usize = 0;
    while i < v.len()
        invariant
            i <= v@.len(),
            copy@ =~= v@.take(i as int),
        decreases v@.len() - i,
    {
        copy.push(v[i]);
        i = i + 1;
    }
    assert(v@.take(v@.len() as int) =~= v@);
    copy
}

/// Collects, for reciprocal-rank fusion, the ranks at which every row id
/// occurs in `ranked_lists`: row ids in order of first occurrence, each
/// with its ranks in the order in which they occur.
pub fn fuse_ranks(ranked_lists: &Vec<Vec<i64>>) -> (fused: Vec<(i64, Vec<usize>)>)
    ensures
        fused_view(fused@) == spec_fuse_ranks(ranked_lists@.map_values(|l: Vec<i64>| l@)),
{
    let ghost lists = ranked_lists@.map_values(|l: Vec<i64>| l@);
    let mut keys: Vec<i64> = Vec::new();
    let mut ranks: Vec<Vec<usize>> = Vec::new();
    let mut li: usize = 0;
    while li < ranked_lists.len()
        invariant
            lists == ranked_lists@.map_values(|l: Vec<i64>| l@),
            li <= ranked_lists@.len(),
            keys@.len() == ranks@.len(),
            ranks_view(keys@, ranks@) =~~= group_ranks(occurrences(lists.take(li as int))),
        decreases ranked_lists@.len() - li,
    {
        let list: &Vec<i64> = &ranked_lists[li];
        assert(list@ == lists[li as int]);
        let ghost base = occurrences(lists.take(li as int));
        let mut j: usize = 0;
        while j < list.len()
            invariant
                lists == ranked_lists@.map_values(|l: Vec<i64>| l@),
                li < ranked_lists@.len(),
                list@ == lists[li as int],
                base == occurrences(lists.take(li as int)),
                j <= list@.len(),
                keys@.len() == ranks@.len(),
                ranks_view(keys@, ranks@) =~~= group_ranks(
                    base + list@.take(j as int).map(|q: int, r: i64| (r, q as nat)),
                ),
            decreases list@.len() - j,
        {
            let r: i64 = list[j];
            let ghost before = base + list@.take(j as int).map(|q: int, r: i64| (r, q as nat));
            let ghost after = base + list@.take(j + 1).map(|q: int, r: i64| (r, q as nat));
            assert(after.drop_last() =~= before);
            assert(after.last() == (r, j as nat));
            let ghost g = group_ranks(before);
            assert(group_keys(g) =~= keys@);
            match find_key(&keys, r) {
                Some(p) => {
                    let ghost old_ranks = ranks@;
                    let mut inner: Vec<usize> = copy_ranks(&ranks[p]);
                    inner.push(j);
                    assert(inner@.map_values(|k: usize| k as nat) =~= old_ranks[p as int]@.map_values(
                        |k: usize| k as nat,
                    ).push(j as nat));
                    ranks.set(p, inner);
                    assert(ranks_view(keys@, ranks@) =~~= g.update(
                        p as int,
                        (r, g[p as int].1.push(j as nat)),
                    ));
                },
                None => {
                    keys.push(r);
                    let mut inner: Vec<usize> = Vec::new();
                    inner.push(j);
                    ranks.push(inner);
                    assert(ranks_view(keys@, ranks@) =~~= g.push((r, seq![j as nat])));
                },
            }
            j = j + 1;
        }
        assert(list@.take(list@.len() as int) =~= list@);
        assert(lists.take(li + 1).drop_last() =~= lists.take(li as int));
        li = li + 1;
    }
    assert(lists.take(ranked_lists@.len() as int) =~= lists);
    let mut fused: Vec<(i64, Vec<usize>)> = Vec::new();
    let mut i: usize = 0;
    while i < keys.len()
        invariant
            i <= keys@.len(),
            keys@.len() == ranks@.len(),
            fused_view(fused@) =~~= ranks_view(keys@, ranks@).take(i as int),
        decreases keys@.len() - i,
    {
        let inner: Vec<usize> = copy_ranks(&ranks[i]);
        let ghost prev = fused@;
        fused.push((keys[i], inner));
        assert(fused_view(fused@) =~~= fused_view(prev).push(ranks_view(keys@, ranks@)[i as int]));
        i = i + 1;
    }
    fused
}

/// The texts by row id that a list of fetched rows gives: a later row
/// replaces an earlier one with the same id.
pub open spec fn text_map(rows: Seq<(i64, String)>) -> Map<i64, String>
    decreases rows.len(),
{
    if rows.len() == 0 {
        Map::empty()
    } else {
        text_map(rows.drop_last()).insert(rows.last().0, rows.last().1)
    }
}

/// The texts of `top` in rank order: each row id found in `m` gives its
/// text once (its entry is taken out), ids not found are skipped.
pub open spec fn found_texts(top: Seq<i64>, m: Map<i64, String>) -> Seq<Seq<char>>
    decreases top.len(),
{
    if top.len() == 0 {
        seq![]
    } else if m.contains_key(top[0]) {
        seq![m[top[0]]@] + found_texts(top.drop_first(), m.remove(top[0]))
    } else {
        found_texts(top.drop_first(), m)
    }
}

/// An answer holds at most one document per requested row id.
pub proof fn law_found_texts_bounded(top: Seq<i64>, m: Map<i64, String>)
    ensures
        found_texts(top, m).len() <= top.len(),
    decreases top.len(),
{
    if top.len() > 0 {
        law_found_texts_bounded(top.drop_first(), m);
        law_found_texts_bounded(top.drop_first(), m.remove(top[0]));
    }
}

/// The newline that separates the documents of an answer.
pub open spec fn newline() -> Seq<char> {
    seq!['\n']
}

/// Puts the fetched texts in the order of `top` and joins them with
/// newlines.
pub fn assemble_documents(top: &Vec<i64>, rows: Vec<(i64, String)>) -> (docs: String)
    ensures
        docs@ == join(found_texts(top@, text_map(rows@)), newline()),
{
    broadcast use vstd::std_specs::hash::group_hash_axioms;

    let mut text_by_rowid: HashMap<i64, String> = HashMap::new();
    let mut i: usize = 0;
    while i < rows.len()
        invariant
            i <= rows@.len(),
            text_by_rowid@ == text_map(rows@.take(i as int)),
        decreases rows@.len() - i,
    {
        assert(rows@.take(i + 1).drop_last() =~= rows@.take(i as int));
        let rowid: i64 = rows[i].0;
        let text: String = rows[i].1.clone();
        text_by_rowid.insert(rowid, text);
        i = i + 1;
    }
    assert(rows@.take(rows@.len() as int) =~= rows@);
    let ghost all = text_by_rowid@;
    let mut found: Vec<String> = Vec::new();
    let mut k: usize = 0;
    assert(top@.skip(0) =~= top@);
    assert(views(found@) =~= seq![]);
    assert(views(found@) + found_texts(top@, all) =~= found_texts(top@, all));
    while k < top.len()
        invariant
            k <= top@.len(),
            views(found@) + found_texts(top@.skip(k as int), text_by_rowid@) == found_texts(
                top@,
                all,
            ),
        decreases top@.len() - k,
    {
        let ghost before = text_by_rowid@;
        let ghost rest = top@.skip(k as int);
        assert(rest[0] == top@[k as int]);
        assert(rest.drop_first() =~= top@.skip(k + 1));
        let ghost prev = found@;
        match text_by_rowid.remove(&top[k]) {
            Some(text) => {
                assert(before.contains_key(top@[k as int]) && before[top@[k as int]] == text);
                assert(text_by_rowid@ == before.remove(top@[k as int]));
                found.push(text);
                assert(views(found@) =~= views(prev).push(text@));
                assert(views(found@) + found_texts(top@.skip(k + 1), text_by_rowid@) =~= views(prev)
                    + found_texts(rest, before));
            },
            None => {
                assert(!before.contains_key(top@[k as int]));
                assert(text_by_rowid@ =~= before);
            },
        }
        k = k + 1;
    }
    assert(views(found@) =~= found_texts(top@, all));
    let sep: &str = "\n";
    proof {
        reveal_strlit("\n");
        assert(sep@ =~= newline());
    }
    let docs: String = join_range(&found, 0, found.len(), sep);
    assert(found@.subrange(0, found@.len() as int) =~= found@);
    docs
}

} // verus!
