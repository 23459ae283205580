use vstd::prelude::*;
use crate::expected_count::{expected_count, spec_expected};
use crate::posting_list::{lower_bound, strictly_increasing, CompressedPostingList, PostingList};
use crate::postings_iterator::{
    compressed_view,
    in_all,
    intersect_compressed_postings_iterator,
    intersect_postings_iterator,
    lists_view,
};
use crate::types::{CardinalityEstimation, OperationError, PointOffsetType};

verus! {

/// Identifier of a token in the vocabulary of an index.
pub type TokenId = u32;

/// The tokens of one text, each once, in ascending order.
#[derive(Debug)]
pub struct Document {
    tokens: Vec<TokenId>,
}

impl View for Document {
    type V = Seq<TokenId>;

    closed spec fn view(&self) -> Seq<TokenId> {
        self.tokens@
    }
}

impl Document {
    /// The tokens are sorted and free of duplicates.
    pub open spec fn wf(&self) -> bool {
        strictly_increasing(self@)
    }

    /// The document that holds exactly the given tokens.
    pub fn new(tokens: Vec<TokenId>) -> (r: Self)
        ensures
            r.wf(),
            forall|t: TokenId| r@.contains(t) <==> tokens@.contains(t),
    {
        let mut set: PostingList = PostingList::default();
        let mut i: usize = 0;
        while i < tokens.len()
            invariant
                i <= tokens.len(),
                set.wf(),
                forall|t: TokenId| set@.contains(t) <==> tokens@.take(i as int).contains(t),
            decreases tokens.len() - i,
        {
            let ghost before = set@;
            let ghost head = tokens@.take(i as int);
            let ghost head_next = tokens@.take(i as int + 1);
            set.insert(tokens[i]);
            proof {
                assert(head_next =~= head.push(tokens@[i as int]));
                assert forall|t: TokenId| set@.contains(t) <==> head_next.contains(t) by {
                    if t == tokens@[i as int] {
                        assert(head_next[i as int] == t);
                    } else {
                        if head.contains(t) {
                            let k = choose|k: int| 0 <= k < head.len() && head[k] == t;
                            assert(head_next[k] == t);
                        }
                        if head_next.contains(t) {
                            let k = choose|k: int| 0 <= k < head_next.len() && head_next[k] == t;
                            assert(head[k] == t);
                        }
                    }
                }
            }
            i = i + 1;
        }
        proof {
            assert(tokens@.take(tokens@.len() as int) =~= tokens@);
        }
        Document { tokens: set.into_vec() }
    }

    /// Number of tokens.
    pub fn len(&self) -> (n: usize)
        ensures
            n == self@.len(),
    {
        self.tokens.len()
    }

    pub fn is_empty(&self) -> (r: bool)
        ensures
            r == (self@.len() == 0),
    {
        self.tokens.len() == 0
    }

    /// The tokens in ascending order.
    pub fn tokens(&self) -> (r: &[TokenId])
        ensures
            r@ == self@,
    {
        self.tokens.as_slice()
    }

    /// True when the document holds the token.
    pub fn check(&self, token: TokenId) -> (r: bool)
        requires
            self.wf(),
        ensures
            r == self@.contains(token),
    {
        let pos: usize = lower_bound(&self.tokens, token);
        if pos < self.tokens.len() && self.tokens[pos] == token {
            assert(self@[pos as int] == token);
            true
        } else {
            assert(!self@.contains(token)) by {
                if self@.contains(token) {
                    let k = choose|k: int| 0 <= k < self@.len() && self@[k] == token;
                    assert(self@[k] == token);
                }
            }
            false
        }
    }

    fn copy(&self) -> (r: Self)
        ensures
            r@ == self@,
    {
        let mut tokens: Vec<TokenId> = Vec::new();
        let mut i: usize = 0;
        while i < self.tokens.len()
            invariant
                i <= self.tokens.len(),
                tokens@ == self.tokens@.take(i as int),
            decreases self.tokens.len() - i,
        {
            tokens.push(self.tokens[i]);
            proof {
                assert(self.tokens@.take(i as int + 1) =~= self.tokens@.take(i as int).push(
                    self.tokens@[i as int],
                ));
            }
            i = i + 1;
        }
        proof {
            assert(self.tokens@.take(self.tokens@.len() as int) =~= self.tokens@);
        }
        Document { tokens }
    }
}

/// The tokens of a query; `None` stands for a word that the vocabulary
/// does not know.
#[derive(Debug)]
pub struct ParsedQuery {
    pub tokens: Vec<Option<TokenId>>,
}

impl ParsedQuery {
    /// A document matches when it holds every token of the query; a query
    /// with an unknown word matches nothing.
    pub open spec fn spec_check_match(&self, document: Seq<TokenId>) -> bool {
        forall|i: int|
            0 <= i < self.tokens@.len() ==> (#[trigger] self.tokens@[i] matches Some(t)
                && document.contains(t))
    }

    pub fn check_match(&self, document: &Document) -> (r: bool)
        requires
            document.wf(),
        ensures
            r == self.spec_check_match(document@),
    {
        let mut i: usize = 0;
        while i < self.tokens.len()
            invariant
                i <= self.tokens.len(),
                document.wf(),
                forall|k: int|
                    0 <= k < i ==> (#[trigger] self.tokens@[k] matches Some(t) && document@.contains(
                        t,
                    )),
            decreases self.tokens.len() - i,
        {
            match self.tokens[i] {
                None => {
                    assert(self.tokens@[i as int] is None);
                    return false;
                },
                Some(t) => {
                    if !document.check(t) {
                        assert(self.tokens@[i as int] == Some(t));
                        return false;
                    }
                },
            }
            i = i + 1;
        }
        true
    }
}

/// Where `tokens` stands in the vocabulary: its position, or the length of
/// the vocabulary where it is not in it.
fn find_word(vocab: &Vec<String>, word: &String) -> (r: usize)
    ensures
        r <= vocab.len(),
        r < vocab.len() ==> vocab@[r as int]@ == word@,
        forall|k: int| 0 <= k < r ==> vocab@[k]@ != word@,
{
    let mut i: usize = 0;
    while i < vocab.len()
        invariant
            i <= vocab.len(),
            forall|k: int| 0 <= k < i ==> vocab@[k]@ != word@,
        decreases vocab.len() - i,
    {
        if vocab[i] == *word {
            return i;
        }
        i = i + 1;
    }
    i
}

/// The words of a vocabulary.
pub open spec fn words_of(vocab: Seq<String>) -> Seq<Seq<char>> {
    vocab.map_values(|w: String| w@)
}

/// No word stands twice in the vocabulary.
pub open spec fn no_repeats(words: Seq<Seq<char>>) -> bool {
    forall|a: int, b: int| 0 <= a < b < words.len() ==> words[a] != words[b]
}

/// The vocabulary after it has taken in the words of a text: each word
/// that it did not know goes to the end, in the order of the text.
pub open spec fn extended(words: Seq<Seq<char>>, text: Seq<Seq<char>>) -> Seq<Seq<char>>
    decreases text.len(),
{
    if text.len() == 0 {
        words
    } else if extended(words, text.drop_last()).contains(text.last()) {
        extended(words, text.drop_last())
    } else {
        extended(words, text.drop_last()).push(text.last())
    }
}

/// Taking the words of a text into a vocabulary without repeats leaves
/// it without repeats, keeps the place of every word that it had, and
/// gives every word of the text a place.
pub proof fn lemma_extended(words: Seq<Seq<char>>, text: Seq<Seq<char>>)
    requires
        no_repeats(words),
    ensures
        no_repeats(extended(words, text)),
        words.len() <= extended(words, text).len() <= words.len() + text.len(),
        extended(words, text).take(words.len() as int) == words,
        forall|j: int| 0 <= j < text.len() ==> extended(words, text).contains(#[trigger] text[j]),
    decreases text.len(),
{
    if text.len() > 0 {
        let init = text.drop_last();
        lemma_extended(words, init);
        let e = extended(words, init);
        let f = extended(words, text);
        assert(f.take(words.len() as int) =~= e.take(words.len() as int));
        assert forall|j: int| 0 <= j < text.len() implies f.contains(#[trigger] text[j]) by {
            if j < init.len() {
                assert(init[j] == text[j]);
                assert(e.contains(init[j]));
                let k = choose|k: int| 0 <= k < e.len() && e[k] == text[j];
                assert(f[k] == text[j]);
            } else {
                if e.contains(text.last()) {
                } else {
                    assert(f[f.len() - 1] == text[j]);
                }
            }
        }
        assert forall|a: int, b: int| 0 <= a < b < f.len() implies f[a] != f[b] by {
            if b < e.len() {
                assert(f[a] == e[a] && f[b] == e[b]);
            } else {
                assert(f[a] == e[a]);
                assert(e.contains(e[a]));
            }
        }
    }
}

/// The words of a text.
pub open spec fn text_of(tokens: Seq<String>) -> Seq<Seq<char>> {
    tokens.map_values(|w: String| w@)
}

/// Looks up the words of a text in the vocabulary, adds the unknown ones
/// and makes the document of their token ids.
fn document_from_tokens_impl(vocab: &mut Vec<String>, tokens: &Vec<String>) -> (r: Document)
    requires
        no_repeats(words_of(old(vocab)@)),
        old(vocab)@.len() + tokens@.len() <= u32::MAX,
    ensures
        r.wf(),
        words_of(final(vocab)@) == extended(words_of(old(vocab)@), text_of(tokens@)),
        forall|t: TokenId|
            r@.contains(t) <==> (t < final(vocab)@.len() && text_of(tokens@).contains(
                words_of(final(vocab)@)[t as int],
            )),
{
    let ghost text = text_of(tokens@);
    let ghost start = words_of(vocab@);
    let mut document_tokens: Vec<TokenId> = Vec::new();
    let mut i: usize = 0;
    proof {
        assert(text.take(0) =~= Seq::<Seq<char>>::empty());
    }
    while i < tokens.len()
        invariant
            i <= tokens.len(),
            text == text_of(tokens@),
            start == words_of(old(vocab)@),
            no_repeats(start),
            start.len() + tokens@.len() <= u32::MAX,
            words_of(vocab@) == extended(start, text.take(i as int)),
            document_tokens@.len() == i,
            forall|k: int|
                0 <= k < i ==> (#[trigger] document_tokens@[k]) < vocab@.len() && words_of(
                    vocab@,
                )[document_tokens@[k] as int] == text[k],
        decreases tokens.len() - i,
    {
        let ghost head = text.take(i as int);
        let ghost head_next = text.take(i as int + 1);
        let ghost words = words_of(vocab@);
        proof {
            assert(head_next.drop_last() =~= head);
            assert(head_next.last() == text[i as int]);
            assert(text[i as int] == tokens@[i as int]@);
            lemma_extended(start, head);
        }
        let pos: usize = find_word(vocab, &tokens[i]);
        let vocab_idx: TokenId = if pos < vocab.len() {
            proof {
                assert(words[pos as int] == text[i as int]);
                assert(words.contains(text[i as int]));
            }
            pos as TokenId
        } else {
            proof {
                assert(!words.contains(text[i as int])) by {
                    if words.contains(text[i as int]) {
                        let k = choose|k: int| 0 <= k < words.len() && words[k] == text[i as int];
                        assert(vocab@[k]@ == tokens@[i as int]@);
                    }
                }
            }
            let next_token_id: TokenId = vocab.len() as TokenId;
            vocab.push(tokens[i].clone());
            proof {
                assert(words_of(vocab@) =~= words.push(text[i as int]));
            }
            next_token_id
        };
        document_tokens.push(vocab_idx);
        proof {
            let grown = words_of(vocab@);
            assert forall|k: int| 0 <= k < i + 1 implies (#[trigger] document_tokens@[k])
                < vocab@.len() && grown[document_tokens@[k] as int] == text[k] by {
                if k < i {
                    assert(grown[document_tokens@[k] as int] == words[document_tokens@[k] as int]);
                }
            }
        }
        i = i + 1;
    }
    proof {
        assert(text.take(text.len() as int) =~= text);
        lemma_extended(start, text);
    }
    let document: Document = Document::new(document_tokens);
    proof {
        let words = words_of(vocab@);
        assert forall|t: TokenId| document@.contains(t) <==> (t < vocab@.len() && text.contains(
            words[t as int],
        )) by {
            if document@.contains(t) {
                assert(document_tokens@.contains(t));
                let k = choose|k: int| 0 <= k < document_tokens@.len() && document_tokens@[k] == t;
                assert(words[t as int] == text[k]);
            }
            if t < vocab@.len() && text.contains(words[t as int]) {
                let k = choose|k: int| 0 <= k < text.len() && text[k] == words[t as int];
                let d = document_tokens@[k];
                assert(words[d as int] == text[k]);
                assert(d == t);
                assert(document_tokens@.contains(t));
            }
        }
    }
    document
}


/// The list kept for a token, `None` where none is kept.
pub open spec fn entry_of(postings: Seq<Option<PostingList>>, token: TokenId) -> Option<Seq<u32>> {
    if token < postings.len() {
        match postings[token as int] {
            Some(list) => Some(list@),
            None => None,
        }
    } else {
        None
    }
}

/// True when the list kept for the token holds the point.
pub open spec fn entry_holds(list: Option<Seq<u32>>, idx: PointOffsetType) -> bool {
    list matches Some(points) && points.contains(idx)
}

/// Every list that is kept is sorted and free of duplicates.
pub open spec fn postings_wf(postings: Seq<Option<PostingList>>) -> bool {
    forall|t: int|
        0 <= t < postings.len() ==> (#[trigger] postings[t] matches Some(list) ==> list.wf())
}

/// Puts the point into the list of the token; the list is made if the
/// token has none.
fn add_to_posting(postings: &mut Vec<Option<PostingList>>, token: TokenId, idx: PointOffsetType)
    requires
        postings_wf(old(postings)@),
    ensures
        postings_wf(final(postings)@),
        final(postings)@.len() >= old(postings)@.len(),
        forall|t: TokenId| t != token ==> entry_of(final(postings)@, t) == entry_of(old(postings)@, t),
        entry_of(final(postings)@, token) is Some,
        forall|p: PointOffsetType|
            entry_holds(entry_of(final(postings)@, token), p) <==> (entry_holds(
                entry_of(old(postings)@, token),
                p,
            ) || p == idx),
{
    let token_idx: usize = token as usize;
    while postings.len() <= token_idx
        invariant
            token_idx == token,
            postings_wf(postings@),
            postings@.len() >= old(postings)@.len(),
            forall|t: TokenId| entry_of(postings@, t) == entry_of(old(postings)@, t),
        decreases token_idx + 1 - postings.len(),
    {
        let ghost before = postings@;
        postings.push(None);
        proof {
            assert forall|t: TokenId| entry_of(postings@, t) == entry_of(before, t) by {
                if t < before.len() {
                    assert(postings@[t as int] == before[t as int]);
                }
            }
        }
    }
    let ghost before = postings@;
    match &mut postings[token_idx] {
        Some(list) => {
            list.insert(idx);
        },
        slot => {
            *slot = Some(PostingList::new(idx));
        },
    }
    proof {
        let after = postings@;
        assert(after.len() == before.len());
        assert forall|t: TokenId| t != token implies entry_of(after, t) == entry_of(
            old(postings)@,
            t,
        ) by {
            if t < before.len() {
                assert(after[t as int] == before[t as int]);
            }
            assert(entry_of(before, t) == entry_of(old(postings)@, t));
        }
        assert(entry_of(before, token) == entry_of(old(postings)@, token));
        assert forall|t: int| 0 <= t < after.len() implies (#[trigger] after[t] matches Some(list)
            ==> list.wf()) by {
            if t != token_idx {
                assert(after[t] == before[t]);
            }
        }
        match before[token as int] {
            Some(list) => {
                assert forall|p: PointOffsetType|
                    entry_holds(entry_of(after, token), p) <==> (entry_holds(
                        entry_of(before, token),
                        p,
                    ) || p == idx) by {}
            },
            None => {
                let l = after[token as int]->Some_0;
                assert(l@ == seq![idx]);
                assert forall|p: PointOffsetType|
                    entry_holds(entry_of(after, token), p) <==> (entry_holds(
                        entry_of(before, token),
                        p,
                    ) || p == idx) by {
                    if p == idx {
                        assert(l@[0] == idx);
                    }
                }
            },
        }
    }
}

/// Takes the point out of the list of the token, if the token has one.
fn remove_from_posting(
    postings: &mut Vec<Option<PostingList>>,
    token: TokenId,
    idx: PointOffsetType,
)
    requires
        postings_wf(old(postings)@),
    ensures
        postings_wf(final(postings)@),
        final(postings)@.len() == old(postings)@.len(),
        forall|t: TokenId| t != token ==> entry_of(final(postings)@, t) == entry_of(old(postings)@, t),
        entry_of(final(postings)@, token) is Some <==> entry_of(old(postings)@, token) is Some,
        forall|p: PointOffsetType|
            entry_holds(entry_of(final(postings)@, token), p) <==> (entry_holds(
                entry_of(old(postings)@, token),
                p,
            ) && p != idx),
{
    let token_idx: usize = token as usize;
    if token_idx >= postings.len() {
        return ;
    }
    let ghost before = postings@;
    match &mut postings[token_idx] {
        Some(list) => {
            list.remove(idx);
        },
        _ => {},
    }
    proof {
        let after = postings@;
        assert forall|t: TokenId| t != token implies entry_of(after, t) == entry_of(before, t) by {
            if t < before.len() {
                assert(after[t as int] == before[t as int]);
            }
        }
        assert forall|t: int| 0 <= t < after.len() implies (#[trigger] after[t] matches Some(list)
            ==> list.wf()) by {
            if t != token_idx {
                assert(after[t] == before[t]);
            }
        }
    }
}

/// The tokens of the document of a point, `None` where it has none.
pub open spec fn document_of(docs: Seq<Option<Document>>, idx: PointOffsetType) -> Option<
    Seq<TokenId>,
> {
    if idx < docs.len() {
        match docs[idx as int] {
            Some(doc) => Some(doc@),
            None => None,
        }
    } else {
        None
    }
}

pub open spec fn docs_wf(docs: Seq<Option<Document>>) -> bool {
    forall|i: int| 0 <= i < docs.len() ==> (#[trigger] docs[i] matches Some(doc) ==> doc.wf())
}

/// A count one higher, held at the largest number.
pub open spec fn count_up(count: usize) -> usize {
    if count < usize::MAX {
        (count + 1) as usize
    } else {
        count
    }
}

/// A count one lower, held at zero.
pub open spec fn count_down(count: usize) -> usize {
    if count > 0 {
        (count - 1) as usize
    } else {
        count
    }
}

/// True when the query has a token and the list of each of its tokens
/// holds the point.
pub open spec fn query_holds(
    entries: spec_fn(TokenId) -> Option<Seq<u32>>,
    query: Seq<Option<TokenId>>,
    idx: PointOffsetType,
) -> bool {
    &&& query.len() > 0
    &&& forall|i: int|
        0 <= i < query.len() ==> (#[trigger] query[i] matches Some(t) && entry_holds(
            entries(t),
            idx,
        ))
}

/// An inverted index that takes writes: for each token the sorted list of
/// the points that hold it, and for each point its document.
#[derive(Debug)]
pub struct MutableInvertedIndex {
    postings: Vec<Option<PostingList>>,
    vocab: Vec<String>,
    point_to_docs: Vec<Option<Document>>,
    points_count: usize,
}

impl Default for MutableInvertedIndex {
    fn default() -> (r: Self)
        ensures
            r.wf(),
            r.links_ok(),
            r.words().len() == 0,
            r.spec_points_count() == 0,
            forall|t: TokenId| r.posting(t) is None,
            forall|idx: PointOffsetType| r.document(idx) is None,
    {
        MutableInvertedIndex {
            postings: Vec::new(),
            vocab: Vec::new(),
            point_to_docs: Vec::new(),
            points_count: 0,
        }
    }
}

impl MutableInvertedIndex {
    /// The list of the points that hold the token.
    pub closed spec fn posting(&self, token: TokenId) -> Option<Seq<u32>> {
        entry_of(self.postings@, token)
    }

    /// The document of the point.
    pub closed spec fn document(&self, idx: PointOffsetType) -> Option<Seq<TokenId>> {
        document_of(self.point_to_docs@, idx)
    }

    /// The vocabulary: the word of token `t` stands at position `t`.
    pub closed spec fn words(&self) -> Seq<Seq<char>> {
        words_of(self.vocab@)
    }

    pub closed spec fn spec_points_count(&self) -> usize {
        self.points_count
    }

    /// The lists and the documents are sorted, and no word stands twice in
    /// the vocabulary.
    pub closed spec fn wf(&self) -> bool {
        &&& postings_wf(self.postings@)
        &&& docs_wf(self.point_to_docs@)
        &&& no_repeats(words_of(self.vocab@))
    }

    /// The list of a token is ascending and holds no point twice, so that
    /// the points that it holds fix the list and its length.
    pub proof fn lemma_posting_sorted(&self, token: TokenId)
        requires
            self.wf(),
        ensures
            self.posting(token) matches Some(list) ==> strictly_increasing(list),
    {
        if token < self.postings@.len() {
            assert(self.postings@[token as int] matches Some(list) ==> list.wf());
        }
    }

    /// The lists and the documents say the same: a point is in the list of
    /// a token exactly when its document holds the token.
    pub open spec fn links_ok(&self) -> bool {
        forall|t: TokenId, idx: PointOffsetType|
            #![trigger entry_holds(self.posting(t), idx)]
            entry_holds(self.posting(t), idx) <==> (self.document(idx) matches Some(doc)
                && doc.contains(t))
    }

    /// True when the point matches the query.
    pub open spec fn matches(&self, query: Seq<Option<TokenId>>, idx: PointOffsetType) -> bool {
        query_holds(|t: TokenId| self.posting(t), query, idx)
    }

    /// Files the document under the point and the point under each token of
    /// the document.
    pub fn index_document(&mut self, idx: PointOffsetType, document: Document)
        requires
            old(self).wf(),
            document.wf(),
        ensures
            final(self).wf(),
            final(self).words() == old(self).words(),
            final(self).spec_points_count() == count_up(old(self).spec_points_count()),
            final(self).document(idx) == Some(document@),
            forall|other: PointOffsetType|
                other != idx ==> final(self).document(other) == old(self).document(other),
            forall|t: TokenId|
                #![trigger final(self).posting(t)]
                final(self).posting(t) is Some <==> (old(self).posting(t) is Some
                    || document@.contains(t)),
            forall|t: TokenId, p: PointOffsetType|
                #![trigger entry_holds(final(self).posting(t), p)]
                entry_holds(final(self).posting(t), p) <==> (entry_holds(old(self).posting(t), p) || (
                document@.contains(t) && p == idx)),
            old(self).links_ok() && old(self).document(idx) is None ==> final(self).links_ok(),
    {
        if self.points_count < usize::MAX {
            self.points_count = self.points_count + 1;
        }
        let slot: usize = idx as usize;
        while self.point_to_docs.len() <= slot
            invariant
                slot == idx,
                self.postings == old(self).postings,
                self.vocab == old(self).vocab,
                self.points_count == count_up(old(self).points_count),
                docs_wf(self.point_to_docs@),
                forall|i: PointOffsetType|
                    document_of(self.point_to_docs@, i) == document_of(old(self).point_to_docs@, i),
            decreases slot + 1 - self.point_to_docs.len(),
        {
            let ghost before = self.point_to_docs@;
            self.point_to_docs.push(None);
            proof {
                assert forall|i: PointOffsetType|
                    document_of(self.point_to_docs@, i) == document_of(before, i) by {
                    if i < before.len() {
                        assert(self.point_to_docs@[i as int] == before[i as int]);
                    }
                }
            }
        }
        let tokens: &[TokenId] = document.tokens();
        let mut k: usize = 0;
        while k < tokens.len()
            invariant
                k <= tokens.len(),
                tokens@ == document@,
                slot == idx,
                slot < self.point_to_docs.len(),
                self.vocab == old(self).vocab,
                self.points_count == count_up(old(self).points_count),
                postings_wf(self.postings@),
                docs_wf(self.point_to_docs@),
                forall|i: PointOffsetType|
                    document_of(self.point_to_docs@, i) == document_of(old(self).point_to_docs@, i),
                forall|t: TokenId|
                    #![trigger entry_of(self.postings@, t)]
                    entry_of(self.postings@, t) is Some <==> (entry_of(old(self).postings@, t) is Some
                        || document@.take(k as int).contains(t)),
                forall|t: TokenId, p: PointOffsetType|
                    #![trigger entry_holds(entry_of(self.postings@, t), p)]
                    entry_holds(entry_of(self.postings@, t), p) <==> (entry_holds(
                        entry_of(old(self).postings@, t),
                        p,
                    ) || (document@.take(k as int).contains(t) && p == idx)),
            decreases tokens.len() - k,
        {
            let token: TokenId = tokens[k];
            let ghost before = self.postings@;
            let ghost head = document@.take(k as int);
            let ghost head_next = document@.take(k as int + 1);
            add_to_posting(&mut self.postings, token, idx);
            proof {
                assert(head_next =~= head.push(token));
                assert forall|t: TokenId| head_next.contains(t) <==> (head.contains(t) || t
                    == token) by {
                    if head.contains(t) {
                        let j = choose|j: int| 0 <= j < head.len() && head[j] == t;
                        assert(head_next[j] == t);
                    }
                    if t == token {
                        assert(head_next[k as int] == t);
                    }
                    if head_next.contains(t) {
                        let j = choose|j: int| 0 <= j < head_next.len() && head_next[j] == t;
                        if j < k {
                            assert(head[j] == t);
                        }
                    }
                }
                assert forall|t: TokenId|
                    #![trigger entry_of(self.postings@, t)]
                    entry_of(self.postings@, t) is Some <==> (entry_of(old(self).postings@, t) is Some
                        || head_next.contains(t)) by {
                    if t != token {
                        assert(entry_of(self.postings@, t) == entry_of(before, t));
                    }
                    assert(entry_of(before, t) is Some <==> (entry_of(old(self).postings@, t) is Some
                        || head.contains(t)));
                    assert(head_next.contains(t) <==> (head.contains(t) || t == token));
                }
                assert forall|t: TokenId, p: PointOffsetType|
                    #![trigger entry_holds(entry_of(self.postings@, t), p)]
                    entry_holds(entry_of(self.postings@, t), p) <==> (entry_holds(
                        entry_of(old(self).postings@, t),
                        p,
                    ) || (head_next.contains(t) && p == idx)) by {
                    if t != token {
                        assert(entry_of(self.postings@, t) == entry_of(before, t));
                    }
                    assert(entry_holds(entry_of(before, t), p) <==> (entry_holds(
                        entry_of(old(self).postings@, t),
                        p,
                    ) || (head.contains(t) && p == idx)));
                }
            }
            k = k + 1;
        }
        proof {
            assert(document@.take(document@.len() as int) =~= document@);
        }
        let ghost docs_before = self.point_to_docs@;
        self.point_to_docs[slot] = Some(document);
        proof {
            let docs = self.point_to_docs@;
            assert forall|other: PointOffsetType| other != idx implies document_of(docs, other)
                == document_of(old(self).point_to_docs@, other) by {
                if other < docs.len() {
                    assert(docs[other as int] == docs_before[other as int]);
                }
                assert(document_of(docs_before, other) == document_of(
                    old(self).point_to_docs@,
                    other,
                ));
            }
            assert forall|i: int| 0 <= i < docs.len() implies (#[trigger] docs[i] matches Some(doc)
                ==> doc.wf()) by {
                if i != slot {
                    assert(docs[i] == docs_before[i]);
                }
            }
            if old(self).links_ok() && old(self).document(idx) is None {
                assert forall|t: TokenId, p: PointOffsetType|
                    #![trigger entry_holds(self.posting(t), p)]
                    entry_holds(self.posting(t), p) <==> (self.document(p) matches Some(doc)
                        && doc.contains(t)) by {
                    assert(entry_holds(old(self).posting(t), p) <==> (old(self).document(
                        p,
                    ) matches Some(doc) && doc.contains(t)));
                    if p != idx {
                        assert(self.document(p) == old(self).document(p));
                    }
                }
            }
        }
    }

    /// Takes the document of the point out of the index. Says whether the
    /// point had one.
    pub fn remove_document(&mut self, idx: PointOffsetType) -> (r: bool)
        requires
            old(self).wf(),
        ensures
            final(self).wf(),
            r == old(self).document(idx) is Some,
            final(self).words() == old(self).words(),
            final(self).document(idx) is None,
            forall|other: PointOffsetType|
                other != idx ==> final(self).document(other) == old(self).document(other),
            final(self).spec_points_count() == if r {
                count_down(old(self).spec_points_count())
            } else {
                old(self).spec_points_count()
            },
            forall|t: TokenId|
                #![trigger final(self).posting(t)]
                final(self).posting(t) is Some <==> old(self).posting(t) is Some,
            forall|t: TokenId, p: PointOffsetType|
                #![trigger entry_holds(final(self).posting(t), p)]
                entry_holds(final(self).posting(t), p) <==> (entry_holds(old(self).posting(t), p)
                    && !(p == idx && (old(self).document(idx) matches Some(doc) && doc.contains(
                    t,
                )))),
            old(self).links_ok() ==> final(self).links_ok(),
    {
        let slot: usize = idx as usize;
        if self.point_to_docs.len() <= slot {
            return false;
        }
        let removed_doc: Document = match &self.point_to_docs[slot] {
            Some(doc) => doc.copy(),
            None => {
                return false;
            },
        };
        let ghost docs_before = self.point_to_docs@;
        self.point_to_docs[slot] = None;
        proof {
            let docs = self.point_to_docs@;
            assert forall|other: PointOffsetType| other != idx implies document_of(docs, other)
                == document_of(docs_before, other) by {
                if other < docs.len() {
                    assert(docs[other as int] == docs_before[other as int]);
                }
            }
            assert forall|i: int| 0 <= i < docs.len() implies (#[trigger] docs[i] matches Some(doc)
                ==> doc.wf()) by {
                if i != slot {
                    assert(docs[i] == docs_before[i]);
                }
            }
        }
        if self.points_count > 0 {
            self.points_count = self.points_count - 1;
        }
        let tokens: &[TokenId] = removed_doc.tokens();
        let mut k: usize = 0;
        while k < tokens.len()
            invariant
                k <= tokens.len(),
                tokens@ == removed_doc@,
                old(self).document(idx) == Some(removed_doc@),
                self.vocab == old(self).vocab,
                self.point_to_docs@.len() == docs_before.len(),
                self.points_count == count_down(old(self).points_count),
                document_of(self.point_to_docs@, idx) is None,
                forall|other: PointOffsetType|
                    other != idx ==> document_of(self.point_to_docs@, other) == document_of(
                        docs_before,
                        other,
                    ),
                postings_wf(self.postings@),
                docs_wf(self.point_to_docs@),
                forall|t: TokenId|
                    #![trigger entry_of(self.postings@, t)]
                    entry_of(self.postings@, t) is Some <==> entry_of(old(self).postings@, t) is Some,
                forall|t: TokenId, p: PointOffsetType|
                    #![trigger entry_holds(entry_of(self.postings@, t), p)]
                    entry_holds(entry_of(self.postings@, t), p) <==> (entry_holds(
                        entry_of(old(self).postings@, t),
                        p,
                    ) && !(p == idx && removed_doc@.take(k as int).contains(t))),
            decreases tokens.len() - k,
        {
            let token: TokenId = tokens[k];
            let ghost before = self.postings@;
            let ghost head = removed_doc@.take(k as int);
            let ghost head_next = removed_doc@.take(k as int + 1);
            remove_from_posting(&mut self.postings, token, idx);
            proof {
                assert(head_next =~= head.push(token));
                assert forall|t: TokenId| head_next.contains(t) <==> (head.contains(t) || t
                    == token) by {
                    if head.contains(t) {
                        let j = choose|j: int| 0 <= j < head.len() && head[j] == t;
                        assert(head_next[j] == t);
                    }
                    if t == token {
                        assert(head_next[k as int] == t);
                    }
                    if head_next.contains(t) {
                        let j = choose|j: int| 0 <= j < head_next.len() && head_next[j] == t;
                        if j < k {
                            assert(head[j] == t);
                        }
                    }
                }
                assert forall|t: TokenId|
                    #![trigger entry_of(self.postings@, t)]
                    entry_of(self.postings@, t) is Some <==> entry_of(old(self).postings@, t) is Some by {
                    if t != token {
                        assert(entry_of(self.postings@, t) == entry_of(before, t));
                    }
                    assert(entry_of(before, t) is Some <==> entry_of(old(self).postings@, t) is Some);
                }
                assert forall|t: TokenId, p: PointOffsetType|
                    #![trigger entry_holds(entry_of(self.postings@, t), p)]
                    entry_holds(entry_of(self.postings@, t), p) <==> (entry_holds(
                        entry_of(old(self).postings@, t),
                        p,
                    ) && !(p == idx && head_next.contains(t))) by {
                    if t != token {
                        assert(entry_of(self.postings@, t) == entry_of(before, t));
                    }
                    assert(entry_holds(entry_of(before, t), p) <==> (entry_holds(
                        entry_of(old(self).postings@, t),
                        p,
                    ) && !(p == idx && head.contains(t))));
                }
            }
            k = k + 1;
        }
        proof {
            assert(removed_doc@.take(removed_doc@.len() as int) =~= removed_doc@);
            if old(self).links_ok() {
                assert forall|t: TokenId, p: PointOffsetType|
                    #![trigger entry_holds(self.posting(t), p)]
                    entry_holds(self.posting(t), p) <==> (self.document(p) matches Some(doc)
                        && doc.contains(t)) by {
                    assert(entry_holds(old(self).posting(t), p) <==> (old(self).document(
                        p,
                    ) matches Some(doc) && doc.contains(t)));
                    if p != idx {
                        assert(self.document(p) == old(self).document(p));
                    }
                }
            }
        }
        true
    }

    /// The lists of the tokens of the query, `None` where the query holds an
    /// unknown word or a token without a list.
    fn query_postings(&self, query: &ParsedQuery) -> (r: Option<Vec<&PostingList>>)
        requires
            self.wf(),
        ensures
            r matches Some(lists) ==> {
                &&& lists@.len() == query.tokens@.len()
                &&& forall|i: int| 0 <= i < lists@.len() ==> (#[trigger] lists@[i]).wf()
                &&& forall|i: int|
                    0 <= i < lists@.len() ==> (#[trigger] query.tokens@[i] matches Some(t)
                        && self.posting(t) == Some(lists@[i]@))
            },
            r is None ==> exists|i: int|
                0 <= i < query.tokens@.len() && !(#[trigger] query.tokens@[i] matches Some(t)
                    && self.posting(t) is Some),
    {
        let mut lists: Vec<&PostingList> = Vec::new();
        let mut i: usize = 0;
        while i < query.tokens.len()
            invariant
                i <= query.tokens.len(),
                self.wf(),
                lists@.len() == i,
                forall|k: int| 0 <= k < i ==> (#[trigger] lists@[k]).wf(),
                forall|k: int|
                    0 <= k < i ==> (#[trigger] query.tokens@[k] matches Some(t) && self.posting(t)
                        == Some(lists@[k]@)),
            decreases query.tokens.len() - i,
        {
            match query.tokens[i] {
                None => {
                    assert(!(query.tokens@[i as int] matches Some(t) && self.posting(t) is Some));
                    return None;
                },
                Some(token) => {
                    let token_idx: usize = token as usize;
                    if token_idx >= self.postings.len() {
                        assert(!(query.tokens@[i as int] matches Some(t) && self.posting(
                            t,
                        ) is Some));
                        return None;
                    }
                    match &self.postings[token_idx] {
                        None => {
                            assert(!(query.tokens@[i as int] matches Some(t) && self.posting(
                                t,
                            ) is Some));
                            return None;
                        },
                        Some(list) => {
                            lists.push(list);
                        },
                    }
                },
            }
            i = i + 1;
        }
        Some(lists)
    }

    /// The points that match the query, in ascending order.
    pub fn filter(&self, query: &ParsedQuery) -> (r: Vec<PointOffsetType>)
        requires
            self.wf(),
        ensures
            strictly_increasing(r@),
            forall|idx: PointOffsetType| r@.contains(idx) <==> self.matches(query.tokens@, idx),
    {
        match self.query_postings(query) {
            None => {
                let r: Vec<PointOffsetType> = Vec::new();
                proof {
                    let i = choose|i: int|
                        0 <= i < query.tokens@.len() && !(#[trigger] query.tokens@[i] matches Some(t)
                            && self.posting(t) is Some);
                    assert forall|idx: PointOffsetType| !self.matches(query.tokens@, idx) by {
                        if self.matches(query.tokens@, idx) {
                            assert(query.tokens@[i] matches Some(t) && entry_holds(
                                self.posting(t),
                                idx,
                            ));
                        }
                    }
                }
                r
            },
            Some(lists) => {
                if lists.len() == 0 {
                    return Vec::new();
                }
                let r: Vec<PointOffsetType> = intersect_postings_iterator(lists);
                proof {
                    let views = lists_view(lists@);
                    assert forall|idx: PointOffsetType| in_all(views, idx) <==> self.matches(
                        query.tokens@,
                        idx,
                    ) by {
                        if in_all(views, idx) {
                            assert forall|i: int| 0 <= i < query.tokens@.len() implies (
                            #[trigger] query.tokens@[i] matches Some(t) && entry_holds(
                                self.posting(t),
                                idx,
                            )) by {
                                assert(views[i].contains(idx));
                                assert(views[i] == lists@[i]@);
                            }
                        }
                        if self.matches(query.tokens@, idx) {
                            assert forall|i: int| 0 <= i < views.len() implies (
                            #[trigger] views[i]).contains(idx) by {
                                assert(query.tokens@[i] matches Some(t) && entry_holds(
                                    self.posting(t),
                                    idx,
                                ));
                                assert(views[i] == lists@[i]@);
                            }
                        }
                    }
                }
                r
            },
        }
    }

    fn get_doc(&self, idx: PointOffsetType) -> (r: Option<&Document>)
        requires
            self.wf(),
        ensures
            match r {
                Some(doc) => self.document(idx) == Some(doc@) && doc.wf(),
                None => self.document(idx) is None,
            },
    {
        let slot: usize = idx as usize;
        if slot < self.point_to_docs.len() {
            match &self.point_to_docs[slot] {
                Some(doc) => Some(doc),
                None => None,
            }
        } else {
            None
        }
    }

    /// Number of tokens of the document of the point, zero without one.
    pub fn values_count(&self, point_id: PointOffsetType) -> (r: usize)
        requires
            self.wf(),
        ensures
            r == match self.document(point_id) {
                Some(doc) => doc.len(),
                None => 0,
            },
    {
        match self.get_doc(point_id) {
            Some(doc) => doc.len(),
            None => 0,
        }
    }

    /// True when the point has no document or an empty one.
    pub fn values_is_empty(&self, point_id: PointOffsetType) -> (r: bool)
        requires
            self.wf(),
        ensures
            r == match self.document(point_id) {
                Some(doc) => doc.len() == 0,
                None => true,
            },
    {
        match self.get_doc(point_id) {
            Some(doc) => doc.is_empty(),
            None => true,
        }
    }

    /// True when the point has a document that matches the query.
    pub fn check_match(&self, parsed_query: &ParsedQuery, point_id: PointOffsetType) -> (r: bool)
        requires
            self.wf(),
        ensures
            r == match self.document(point_id) {
                Some(doc) => parsed_query.spec_check_match(doc),
                None => false,
            },
    {
        match self.get_doc(point_id) {
            Some(doc) => parsed_query.check_match(doc),
            None => false,
        }
    }
}


/// The text filed last under the point among the items, `None` where no
/// item names the point.
pub open spec fn last_text(items: Seq<(PointOffsetType, Vec<String>)>, idx: PointOffsetType) -> Option<
    Seq<Seq<char>>,
>
    decreases items.len(),
{
    if items.len() == 0 {
        None
    } else if items.last().0 == idx {
        Some(text_of(items.last().1@))
    } else {
        last_text(items.drop_last(), idx)
    }
}

/// The vocabulary that the texts of the items build, in their order.
pub open spec fn built_words(items: Seq<(PointOffsetType, Vec<String>)>) -> Seq<Seq<char>>
    decreases items.len(),
{
    if items.len() == 0 {
        Seq::empty()
    } else {
        extended(built_words(items.drop_last()), text_of(items.last().1@))
    }
}

/// Number of words in the texts of the items.
pub open spec fn total_words(items: Seq<(PointOffsetType, Vec<String>)>) -> nat
    decreases items.len(),
{
    if items.len() == 0 {
        0
    } else {
        total_words(items.drop_last()) + items.last().1@.len()
    }
}

/// The vocabulary of a built index holds no word twice, and no more
/// words than the documents hold together.
pub proof fn lemma_built_words(items: Seq<(PointOffsetType, Vec<String>)>)
    ensures
        no_repeats(built_words(items)),
        built_words(items).len() <= total_words(items),
    decreases items.len(),
{
    if items.len() > 0 {
        lemma_built_words(items.drop_last());
        lemma_extended(built_words(items.drop_last()), text_of(items.last().1@));
    }
}

proof fn lemma_total_words_prefix(items: Seq<(PointOffsetType, Vec<String>)>, n: int)
    requires
        0 <= n <= items.len(),
    ensures
        total_words(items.take(n)) <= total_words(items),
    decreases items.len() - n,
{
    if n < items.len() {
        assert(items.take(n + 1).drop_last() =~= items.take(n));
        lemma_total_words_prefix(items, n + 1);
    } else {
        assert(items.take(n) =~= items);
    }
}

/// The tokens of a document say which words of the text the vocabulary
/// holds.
pub open spec fn document_says(doc: Seq<TokenId>, words: Seq<Seq<char>>, text: Seq<Seq<char>>) -> bool {
    forall|t: TokenId|
        #![trigger doc.contains(t)]
        doc.contains(t) <==> (t < words.len() && text.contains(words[t as int]))
}

/// A document stays true to its text while the vocabulary grows.
proof fn lemma_document_says_grows(
    doc: Seq<TokenId>,
    words: Seq<Seq<char>>,
    grown: Seq<Seq<char>>,
    text: Seq<Seq<char>>,
)
    requires
        document_says(doc, words, text),
        no_repeats(grown),
        words.len() <= grown.len(),
        grown.take(words.len() as int) == words,
        forall|j: int| 0 <= j < text.len() ==> words.contains(#[trigger] text[j]),
    ensures
        document_says(doc, grown, text),
{
    assert forall|t: TokenId|
        #![trigger doc.contains(t)]
        doc.contains(t) <==> (t < grown.len() && text.contains(grown[t as int])) by {
        if t < words.len() {
            assert(grown.take(words.len() as int)[t as int] == grown[t as int]);
        } else if t < grown.len() && text.contains(grown[t as int]) {
            let j = choose|j: int| 0 <= j < text.len() && text[j] == grown[t as int];
            assert(words.contains(text[j]));
            let k = choose|k: int| 0 <= k < words.len() && words[k] == text[j];
            assert(grown.take(words.len() as int)[k] == grown[k]);
            assert(grown[k] == grown[t as int]);
        }
    }
}

impl MutableInvertedIndex {
    /// No word stands twice in the vocabulary: a word has one token only.
    pub proof fn lemma_words_apart(&self)
        requires
            self.wf(),
        ensures
            no_repeats(self.words()),
    {
    }

    /// The token of a word, `None` where the vocabulary does not hold it.
    pub fn get_token(&self, token: &str) -> (r: Option<TokenId>)
        requires
            self.wf(),
            self.words().len() <= u32::MAX,
        ensures
            match r {
                Some(t) => t < self.words().len() && self.words()[t as int] == token@,
                None => !self.words().contains(token@),
            },
            no_repeats(self.words()),
    {
        let word: String = token.to_owned();
        let pos: usize = find_word(&self.vocab, &word);
        if pos < self.vocab.len() {
            Some(pos as TokenId)
        } else {
            assert(!self.words().contains(token@)) by {
                if self.words().contains(token@) {
                    let k = choose|k: int| 0 <= k < self.words().len() && self.words()[k] == token@;
                    assert(self.vocab@[k]@ == token@);
                }
            }
            None
        }
    }

    /// Looks up the words of a text in the vocabulary, adds the unknown
    /// ones and makes the document of their tokens.
    pub fn document_from_tokens(&mut self, tokens: &Vec<String>) -> (r: Document)
        requires
            old(self).wf(),
            old(self).words().len() + tokens@.len() <= u32::MAX,
        ensures
            final(self).wf(),
            r.wf(),
            final(self).words() == extended(old(self).words(), text_of(tokens@)),
            document_says(r@, final(self).words(), text_of(tokens@)),
            final(self).spec_points_count() == old(self).spec_points_count(),
            forall|t: TokenId| final(self).posting(t) == old(self).posting(t),
            forall|idx: PointOffsetType| final(self).document(idx) == old(self).document(idx),
    {
        proof {
            lemma_extended(old(self).words(), text_of(tokens@));
        }
        document_from_tokens_impl(&mut self.vocab, tokens)
    }

    /// The row names the word of the token and the length of its list.
    pub open spec fn row_says(&self, row: (String, usize), token: TokenId) -> bool {
        &&& token < self.words().len()
        &&& row.0@ == self.words()[token as int]
        &&& self.posting(token) matches Some(list) && list.len() == row.1
    }

    /// The tokens whose list holds `threshold` points or more, in ascending
    /// order.
    pub open spec fn blocks(&self, threshold: usize) -> Seq<TokenId> {
        block_tokens(|t: TokenId| self.posting(t), self.words().len(), threshold)
    }

    /// The words that have a list, each with the length of its list, in the
    /// order of their tokens; only lists of `threshold` points and more.
    fn words_with_postings(&self, threshold: usize) -> (r: Vec<(String, usize)>)
        requires
            self.wf(),
        ensures
            r@.len() == self.blocks(threshold).len(),
            forall|j: int|
                0 <= j < r@.len() ==> #[trigger] self.row_says(r@[j], self.blocks(threshold)[j]),
    {
        let ghost entries = |t: TokenId| self.posting(t);
        let mut out: Vec<(String, usize)> = Vec::new();
        let mut i: usize = 0;
        while i < self.vocab.len()
            invariant
                i <= self.vocab.len(),
                self.wf(),
                entries == (|t: TokenId| self.posting(t)),
                out@.len() == block_tokens(entries, i as nat, threshold).len(),
                forall|j: int|
                    0 <= j < out@.len() ==> #[trigger] self.row_says(
                        out@[j],
                        block_tokens(entries, i as nat, threshold)[j],
                    ),
            decreases self.vocab.len() - i,
        {
            let ghost before = out@;
            let ghost tokens_before = block_tokens(entries, i as nat, threshold);
            let ghost tokens_after = block_tokens(entries, (i + 1) as nat, threshold);
            let mut keep: Option<usize> = None;
            if i < self.postings.len() && i <= u32::MAX as usize {
                match &self.postings[i] {
                    Some(list) => {
                        if list.len() >= threshold {
                            keep = Some(list.len());
                        }
                    },
                    None => {},
                }
            }
            assert(match keep {
                Some(len) => i <= u32::MAX && (entries(i as TokenId) matches Some(list)
                    && list.len() == len && len >= threshold),
                None => !(i <= u32::MAX && (entries(i as TokenId) matches Some(list) && list.len()
                    >= threshold)),
            });
            match keep {
                Some(len) => {
                    out.push((self.vocab[i].clone(), len));
                    proof {
                        assert(self.words()[i as int] == self.vocab@[i as int]@);
                        assert(tokens_after == tokens_before.push(i as TokenId));
                    }
                },
                None => {
                    proof {
                        assert(tokens_after == tokens_before);
                    }
                },
            }
            proof {
                let after = out@;
                assert(after.len() == tokens_after.len());
                assert forall|j: int| 0 <= j < after.len() implies #[trigger] self.row_says(
                    after[j],
                    tokens_after[j],
                ) by {
                    if j < before.len() {
                        assert(after[j] == before[j]);
                        assert(tokens_after[j] == tokens_before[j]);
                        assert(self.row_says(before[j], tokens_before[j]));
                    } else {
                        assert(keep is Some);
                        assert(tokens_after[j] == i as TokenId);
                    }
                }
            }
            i = i + 1;
        }
        out
    }

    /// The words that have a list, each with the length of its list, in the
    /// order of their tokens.
    pub fn vocab_with_positngs_len_iter(&self) -> (r: Vec<(String, usize)>)
        requires
            self.wf(),
        ensures
            r@.len() == self.blocks(0).len(),
            forall|j: int| 0 <= j < r@.len() ==> #[trigger] self.row_says(r@[j], self.blocks(0)[j]),
    {
        self.words_with_postings(0)
    }

    /// The lengths of the lists of the tokens of the query, `None` where the
    /// query holds an unknown word or a token without a list.
    fn posting_lengths(&self, query: &ParsedQuery) -> (r: Option<Vec<usize>>)
        requires
            self.wf(),
        ensures
            option_view(r) == query_lengths(|t: TokenId| self.posting(t), query.tokens@),
    {
        let ghost entries = |t: TokenId| self.posting(t);
        let mut lens: Vec<usize> = Vec::new();
        let mut i: usize = 0;
        proof {
            assert(query.tokens@.take(0) =~= Seq::<Option<TokenId>>::empty());
        }
        while i < query.tokens.len()
            invariant
                i <= query.tokens.len(),
                self.wf(),
                entries == (|t: TokenId| self.posting(t)),
                query_lengths(entries, query.tokens@.take(i as int)) == Some(lens@),
            decreases query.tokens.len() - i,
        {
            proof {
                assert(query.tokens@.take(i as int + 1).drop_last() =~= query.tokens@.take(
                    i as int,
                ));
                assert(query.tokens@.take(i as int + 1).last() == query.tokens@[i as int]);
            }
            let found: Option<usize> = match query.tokens[i] {
                None => None,
                Some(token) => {
                    let token_idx: usize = token as usize;
                    if token_idx >= self.postings.len() {
                        None
                    } else {
                        match &self.postings[token_idx] {
                            None => None,
                            Some(list) => Some(list.len()),
                        }
                    }
                },
            };
            match found {
                None => {
                    proof {
                        lemma_query_lengths_fail(entries, query.tokens@, i as int + 1);
                    }
                    return None;
                },
                Some(len) => {
                    lens.push(len);
                },
            }
            i = i + 1;
        }
        proof {
            assert(query.tokens@.take(query.tokens@.len() as int) =~= query.tokens@);
        }
        Some(lens)
    }

    /// Builds the index anew from texts filed under points. A point that
    /// stands twice among the items keeps its last text, and is counted
    /// twice.
    pub fn build_index(&mut self, items: &Vec<(PointOffsetType, Vec<String>)>)
        requires
            total_words(items@) <= u32::MAX,
        ensures
            final(self).wf(),
            final(self).links_ok(),
            final(self).spec_points_count() == items@.len(),
            final(self).words() == built_words(items@),
            forall|idx: PointOffsetType|
                match #[trigger] last_text(items@, idx) {
                    Some(text) => final(self).document(idx) matches Some(doc) && document_says(
                        doc,
                        final(self).words(),
                        text,
                    ),
                    None => final(self).document(idx) is None,
                },
    {
        self.points_count = 0;
        self.vocab = Vec::new();
        self.postings = Vec::new();
        self.point_to_docs = Vec::new();
        let mut i: usize = 0;
        proof {
            assert(items@.take(0) =~= Seq::<(PointOffsetType, Vec<String>)>::empty());
            assert(self.words() =~= built_words(items@.take(0)));
        }
        while i < items.len()
            invariant
                i <= items.len(),
                total_words(items@) <= u32::MAX,
                self.wf(),
                self.links_ok(),
                self.words() == built_words(items@.take(i as int)),
                forall|idx: PointOffsetType|
                    match #[trigger] last_text(items@.take(i as int), idx) {
                        Some(text) => (self.document(idx) matches Some(doc) && document_says(
                            doc,
                            self.words(),
                            text,
                        )) && forall|j: int|
                            0 <= j < text.len() ==> self.words().contains(#[trigger] text[j]),
                        None => self.document(idx) is None,
                    },
            decreases items.len() - i,
        {
            let idx: PointOffsetType = items[i].0;
            let ghost done = items@.take(i as int);
            let ghost next = items@.take(i as int + 1);
            let ghost words = self.words();
            let ghost text = text_of(items@[i as int].1@);
            let ghost before = *self;
            proof {
                assert(next.drop_last() =~= done);
                assert(next.last() == items@[i as int]);
                lemma_built_words(done);
                lemma_total_words_prefix(items@, i as int + 1);
                lemma_extended(words, text);
            }
            let document: Document = self.document_from_tokens(&items[i].1);
            let ghost grown = self.words();
            let ghost mid = *self;
            self.remove_document(idx);
            self.index_document(idx, document);
            proof {
                assert forall|other: PointOffsetType|
                    match #[trigger] last_text(next, other) {
                        Some(text) => (self.document(other) matches Some(doc) && document_says(
                            doc,
                            self.words(),
                            text,
                        )) && forall|j: int|
                            0 <= j < text.len() ==> self.words().contains(#[trigger] text[j]),
                        None => self.document(other) is None,
                    } by {
                    if other != idx {
                        assert(last_text(next, other) == last_text(done, other));
                        assert(self.document(other) == before.document(other));
                        match last_text(done, other) {
                            Some(old_text) => {
                                let doc = before.document(other)->Some_0;
                                lemma_document_says_grows(doc, words, grown, old_text);
                                assert forall|j: int| 0 <= j < old_text.len() implies grown.contains(
                                    #[trigger] old_text[j],
                                ) by {
                                    let k = choose|k: int|
                                        0 <= k < words.len() && words[k] == old_text[j];
                                    assert(grown.take(words.len() as int)[k] == grown[k]);
                                }
                            },
                            None => {},
                        }
                    }
                }
            }
            i = i + 1;
        }
        proof {
            assert(items@.take(items@.len() as int) =~= items@);
        }
        let ghost built = *self;
        self.points_count = items.len();
        proof {
            assert forall|t: TokenId, p: PointOffsetType|
                #![trigger entry_holds(self.posting(t), p)]
                entry_holds(self.posting(t), p) <==> (self.document(p) matches Some(doc)
                    && doc.contains(t)) by {
                assert(self.posting(t) == built.posting(t));
                assert(self.document(p) == built.document(p));
                assert(entry_holds(built.posting(t), p) <==> (built.document(p) matches Some(doc)
                    && doc.contains(t)));
            }
        }
    }
}

/// The value inside, as a sequence.
pub open spec fn option_view(lens: Option<Vec<usize>>) -> Option<Seq<usize>> {
    match lens {
        Some(v) => Some(v@),
        None => None,
    }
}

/// The lengths of the lists of the tokens of a query, in the order of the
/// query: `None` where the query holds an unknown word or a token without
/// a list.
pub open spec fn query_lengths(
    entries: spec_fn(TokenId) -> Option<Seq<u32>>,
    query: Seq<Option<TokenId>>,
) -> Option<Seq<usize>>
    decreases query.len(),
{
    if query.len() == 0 {
        Some(Seq::empty())
    } else {
        match (query_lengths(entries, query.drop_last()), query.last()) {
            (Some(lens), Some(t)) => match entries(t) {
                Some(list) => Some(lens.push(list.len() as usize)),
                None => None,
            },
            _ => None,
        }
    }
}

proof fn lemma_query_lengths_fail(
    entries: spec_fn(TokenId) -> Option<Seq<u32>>,
    query: Seq<Option<TokenId>>,
    n: int,
)
    requires
        0 <= n <= query.len(),
        query_lengths(entries, query.take(n)) is None,
    ensures
        query_lengths(entries, query) is None,
    decreases query.len() - n,
{
    if n < query.len() {
        assert(query.take(n + 1).drop_last() =~= query.take(n));
        lemma_query_lengths_fail(entries, query, n + 1);
    } else {
        assert(query.take(n) =~= query);
    }
}

/// A query with an unknown word has no lengths.
pub proof fn lemma_query_lengths_unknown(
    entries: spec_fn(TokenId) -> Option<Seq<u32>>,
    query: Seq<Option<TokenId>>,
    i: int,
)
    requires
        0 <= i < query.len(),
        query[i] is None,
    ensures
        query_lengths(entries, query) is None,
{
    assert(query.take(i + 1).drop_last() =~= query.take(i));
    assert(query.take(i + 1).last() == query[i]);
    lemma_query_lengths_fail(entries, query, i + 1);
}

/// Among the first `n` tokens those whose list holds `threshold` points or
/// more, in ascending order.
pub open spec fn block_tokens(
    entries: spec_fn(TokenId) -> Option<Seq<u32>>,
    n: nat,
    threshold: usize,
) -> Seq<TokenId>
    decreases n,
{
    if n == 0 {
        Seq::empty()
    } else if n - 1 <= u32::MAX && (entries((n - 1) as TokenId) matches Some(list) && list.len()
        >= threshold) {
        block_tokens(entries, (n - 1) as nat, threshold).push((n - 1) as TokenId)
    } else {
        block_tokens(entries, (n - 1) as nat, threshold)
    }
}


/// The compressed list kept for a token, `None` where none is kept.
pub open spec fn compressed_entry_of(
    postings: Seq<Option<CompressedPostingList>>,
    token: TokenId,
) -> Option<Seq<u32>> {
    if token < postings.len() {
        match postings[token as int] {
            Some(list) => Some(list@),
            None => None,
        }
    } else {
        None
    }
}

/// The number kept for a point, `None` where none is kept.
pub open spec fn length_of(lengths: Seq<Option<usize>>, idx: PointOffsetType) -> Option<usize> {
    if idx < lengths.len() {
        lengths[idx as int]
    } else {
        None
    }
}

/// True when `length` is the length of the document, and `None` where
/// there is none.
pub open spec fn same_length(length: Option<usize>, document: Option<Seq<TokenId>>) -> bool {
    match document {
        Some(doc) => length matches Some(n) && n == doc.len(),
        None => length is None,
    }
}

/// An inverted index that takes no new documents: the lists are
/// compressed, and of each document only the number of tokens is kept. A
/// removed point stays in the lists and is passed over when they are read.
#[derive(Debug)]
pub struct ImmutableInvertedIndex {
    postings: Vec<Option<CompressedPostingList>>,
    vocab: Vec<String>,
    point_documents_tokens: Vec<Option<usize>>,
    points_count: usize,
}

impl Default for ImmutableInvertedIndex {
    fn default() -> (r: Self)
        ensures
            r.wf(),
            r.words().len() == 0,
            r.spec_points_count() == 0,
            forall|t: TokenId| r.posting(t) is None,
            forall|idx: PointOffsetType| r.document_len(idx) is None,
    {
        ImmutableInvertedIndex {
            postings: Vec::new(),
            vocab: Vec::new(),
            point_documents_tokens: Vec::new(),
            points_count: 0,
        }
    }
}

impl ImmutableInvertedIndex {
    /// The list of the points that held the token when the index was made.
    pub closed spec fn posting(&self, token: TokenId) -> Option<Seq<u32>> {
        compressed_entry_of(self.postings@, token)
    }

    /// Number of tokens of the document of the point, `None` where the point
    /// has no document.
    pub closed spec fn document_len(&self, idx: PointOffsetType) -> Option<usize> {
        length_of(self.point_documents_tokens@, idx)
    }

    pub closed spec fn words(&self) -> Seq<Seq<char>> {
        words_of(self.vocab@)
    }

    pub closed spec fn spec_points_count(&self) -> usize {
        self.points_count
    }

    pub closed spec fn wf(&self) -> bool {
        &&& forall|t: int|
            0 <= t < self.postings@.len() ==> (#[trigger] self.postings@[t] matches Some(list)
                ==> list.wf())
        &&& no_repeats(words_of(self.vocab@))
    }

    /// The list of a token is ascending and holds no point twice, so that
    /// the points that it holds fix the list and its length.
    pub proof fn lemma_posting_sorted(&self, token: TokenId)
        requires
            self.wf(),
        ensures
            self.posting(token) matches Some(list) ==> strictly_increasing(list),
    {
        if token < self.postings@.len() {
            match self.postings@[token as int] {
                Some(list) => {
                    list.lemma_sorted();
                },
                None => {},
            }
        }
    }

    /// True when the point matches the query: it is in the list of every
    /// token of the query and still has its document.
    pub open spec fn matches(&self, query: Seq<Option<TokenId>>, idx: PointOffsetType) -> bool {
        query_holds(|t: TokenId| self.posting(t), query, idx) && self.document_len(idx) is Some
    }

    /// The index holds what the mutable index held: the same words, lists
    /// and count, and of each document its length.
    pub open spec fn mirrors(&self, index: &MutableInvertedIndex) -> bool {
        &&& self.words() == index.words()
        &&& self.spec_points_count() == index.spec_points_count()
        &&& forall|t: TokenId| #[trigger] self.posting(t) == index.posting(t)
        &&& forall|idx: PointOffsetType|
            same_length(#[trigger] self.document_len(idx), index.document(idx))
    }

    /// Makes the immutable index of a mutable one.
    pub fn from_mutable(index: MutableInvertedIndex) -> (r: Self)
        requires
            index.wf(),
        ensures
            r.wf(),
            r.mirrors(&index),
    {
        let MutableInvertedIndex { postings: lists, vocab, point_to_docs, points_count } = index;
        let mut lists: Vec<Option<PostingList>> = lists;
        let ghost unpacked_lists = lists@;
        let mut postings: Vec<Option<CompressedPostingList>> = Vec::new();
        let mut t: usize = 0;
        while t < lists.len()
            invariant
                t <= lists.len(),
                lists@.len() == unpacked_lists.len(),
                postings_wf(unpacked_lists),
                forall|k: int| t <= k < lists@.len() ==> lists@[k] == unpacked_lists[k],
                postings@.len() == t,
                forall|k: int|
                    0 <= k < t ==> (#[trigger] postings@[k] matches Some(list) ==> list.wf()),
                forall|k: TokenId|
                    k < t ==> compressed_entry_of(postings@, k) == entry_of(unpacked_lists, k),
            decreases lists.len() - t,
        {
            let ghost before = postings@;
            let mut taken: Option<PostingList> = None;
            assert(lists@[t as int] == unpacked_lists[t as int]);
            core::mem::swap(&mut taken, &mut lists[t]);
            let packed: Option<CompressedPostingList> = match taken {
                Some(list) => Some(CompressedPostingList::new(list)),
                None => None,
            };
            postings.push(packed);
            proof {
                assert forall|k: TokenId| k < t + 1 implies compressed_entry_of(postings@, k)
                    == entry_of(unpacked_lists, k) by {
                    if k < t {
                        assert(postings@[k as int] == before[k as int]);
                        assert(compressed_entry_of(before, k) == entry_of(unpacked_lists, k));
                    }
                }
                assert forall|k: int| 0 <= k < t + 1 implies (
                #[trigger] postings@[k] matches Some(list) ==> list.wf()) by {
                    if k < t {
                        assert(postings@[k] == before[k]);
                    }
                }
            }
            t = t + 1;
        }
        let mut point_documents_tokens: Vec<Option<usize>> = Vec::new();
        let mut i: usize = 0;
        while i < point_to_docs.len()
            invariant
                i <= point_to_docs.len(),
                point_documents_tokens@.len() == i,
                forall|k: int|
                    0 <= k < i ==> same_length(
                        #[trigger] point_documents_tokens@[k],
                        match point_to_docs@[k] {
                            Some(doc) => Some(doc@),
                            None => None,
                        },
                    ),
            decreases point_to_docs.len() - i,
        {
            let length: Option<usize> = match &point_to_docs[i] {
                Some(doc) => Some(doc.len()),
                None => None,
            };
            point_documents_tokens.push(length);
            i = i + 1;
        }
        let r = ImmutableInvertedIndex { postings, vocab, point_documents_tokens, points_count };
        proof {
            assert forall|t: TokenId| #[trigger] r.posting(t) == index.posting(t) by {
                if t < unpacked_lists.len() {
                    assert(compressed_entry_of(postings@, t) == entry_of(unpacked_lists, t));
                }
            }
        }
        r
    }

    /// True when the point has no document.
    pub fn values_is_empty(&self, point_id: PointOffsetType) -> (r: bool)
        ensures
            r == self.document_len(point_id) is None,
    {
        let slot: usize = point_id as usize;
        if self.point_documents_tokens.len() <= slot {
            return true;
        }
        self.point_documents_tokens[slot].is_none()
    }

    /// Number of tokens of the document of the point, zero without one.
    pub fn values_count(&self, point_id: PointOffsetType) -> (r: usize)
        ensures
            r == match self.document_len(point_id) {
                Some(n) => n,
                None => 0,
            },
    {
        let slot: usize = point_id as usize;
        if self.point_documents_tokens.len() <= slot {
            return 0;
        }
        match self.point_documents_tokens[slot] {
            Some(n) => n,
            None => 0,
        }
    }

    /// Strikes the document of the point. The lists keep the point; readers
    /// pass it over from now on. Says whether the point had a document.
    pub fn remove_document(&mut self, idx: PointOffsetType) -> (r: bool)
        requires
            old(self).wf(),
        ensures
            final(self).wf(),
            r == old(self).document_len(idx) is Some,
            final(self).document_len(idx) is None,
            forall|other: PointOffsetType|
                other != idx ==> final(self).document_len(other) == old(self).document_len(other),
            forall|t: TokenId| final(self).posting(t) == old(self).posting(t),
            final(self).words() == old(self).words(),
            final(self).spec_points_count() == if r {
                count_down(old(self).spec_points_count())
            } else {
                old(self).spec_points_count()
            },
    {
        if self.values_is_empty(idx) {
            return false;
        }
        let ghost before = self.point_documents_tokens@;
        self.point_documents_tokens[idx as usize] = None;
        proof {
            assert forall|other: PointOffsetType| other != idx implies length_of(
                self.point_documents_tokens@,
                other,
            ) == length_of(before, other) by {
                if other < before.len() {
                    assert(self.point_documents_tokens@[other as int] == before[other as int]);
                }
            }
        }
        if self.points_count > 0 {
            self.points_count = self.points_count - 1;
        }
        true
    }

    /// The lists of the tokens of the query, `None` where the query holds an
    /// unknown word or a token without a list.
    fn query_postings(&self, query: &ParsedQuery) -> (r: Option<Vec<&CompressedPostingList>>)
        requires
            self.wf(),
        ensures
            r matches Some(lists) ==> {
                &&& lists@.len() == query.tokens@.len()
                &&& forall|i: int| 0 <= i < lists@.len() ==> (#[trigger] lists@[i]).wf()
                &&& forall|i: int|
                    0 <= i < lists@.len() ==> (#[trigger] query.tokens@[i] matches Some(t)
                        && self.posting(t) == Some(lists@[i]@))
            },
            r is None ==> exists|i: int|
                0 <= i < query.tokens@.len() && !(#[trigger] query.tokens@[i] matches Some(t)
                    && self.posting(t) is Some),
    {
        let mut lists: Vec<&CompressedPostingList> = Vec::new();
        let mut i: usize = 0;
        while i < query.tokens.len()
            invariant
                i <= query.tokens.len(),
                self.wf(),
                lists@.len() == i,
                forall|k: int| 0 <= k < i ==> (#[trigger] lists@[k]).wf(),
                forall|k: int|
                    0 <= k < i ==> (#[trigger] query.tokens@[k] matches Some(t) && self.posting(t)
                        == Some(lists@[k]@)),
            decreases query.tokens.len() - i,
        {
            match query.tokens[i] {
                None => {
                    assert(!(query.tokens@[i as int] matches Some(t) && self.posting(t) is Some));
                    return None;
                },
                Some(token) => {
                    let token_idx: usize = token as usize;
                    if token_idx >= self.postings.len() {
                        assert(!(query.tokens@[i as int] matches Some(t) && self.posting(
                            t,
                        ) is Some));
                        return None;
                    }
                    match &self.postings[token_idx] {
                        None => {
                            assert(!(query.tokens@[i as int] matches Some(t) && self.posting(
                                t,
                            ) is Some));
                            return None;
                        },
                        Some(list) => {
                            lists.push(list);
                        },
                    }
                },
            }
            i = i + 1;
        }
        Some(lists)
    }

    /// The points that match the query, in ascending order.
    pub fn filter(&self, query: &ParsedQuery) -> (r: Vec<PointOffsetType>)
        requires
            self.wf(),
        ensures
            strictly_increasing(r@),
            forall|idx: PointOffsetType| r@.contains(idx) <==> self.matches(query.tokens@, idx),
    {
        match self.query_postings(query) {
            None => {
                let r: Vec<PointOffsetType> = Vec::new();
                proof {
                    let i = choose|i: int|
                        0 <= i < query.tokens@.len() && !(#[trigger] query.tokens@[i] matches Some(t)
                            && self.posting(t) is Some);
                    assert forall|idx: PointOffsetType| !self.matches(query.tokens@, idx) by {
                        if self.matches(query.tokens@, idx) {
                            assert(query.tokens@[i] matches Some(t) && entry_holds(
                                self.posting(t),
                                idx,
                            ));
                        }
                    }
                }
                r
            },
            Some(lists) => {
                if lists.len() == 0 {
                    return Vec::new();
                }
                let live: &Vec<Option<usize>> = &self.point_documents_tokens;
                let keep = |idx: PointOffsetType| -> (b: bool)
                    ensures
                        b == length_of(live@, idx) is Some,
                    {
                        let slot: usize = idx as usize;
                        slot < live.len() && live[slot].is_some()
                    };
                let ghost given = lists@;
                let r: Vec<PointOffsetType> = intersect_compressed_postings_iterator(lists, keep);
                proof {
                    let views = compressed_view(given);
                    assert forall|idx: PointOffsetType|
                        in_all(views, idx) <==> query_holds(
                            |t: TokenId| self.posting(t),
                            query.tokens@,
                            idx,
                        ) by {
                        if in_all(views, idx) {
                            assert forall|i: int| 0 <= i < query.tokens@.len() implies (
                            #[trigger] query.tokens@[i] matches Some(t) && entry_holds(
                                self.posting(t),
                                idx,
                            )) by {
                                assert(views[i].contains(idx));
                                assert(views[i] == given[i]@);
                            }
                        }
                        if query_holds(|t: TokenId| self.posting(t), query.tokens@, idx) {
                            assert forall|i: int| 0 <= i < views.len() implies (
                            #[trigger] views[i]).contains(idx) by {
                                assert(query.tokens@[i] matches Some(t) && entry_holds(
                                    self.posting(t),
                                    idx,
                                ));
                                assert(views[i] == given[i]@);
                            }
                        }
                    }
                    assert forall|idx: PointOffsetType| r@.contains(idx) <==> self.matches(
                        query.tokens@,
                        idx,
                    ) by {
                        if r@.contains(idx) {
                            assert(call_ensures(keep, (idx,), true));
                        }
                        if self.matches(query.tokens@, idx) && !r@.contains(idx) {
                            assert(call_ensures(keep, (idx,), false));
                        }
                    }
                }
                r
            },
        }
    }

    /// True when the point has its document and stands in the list of
    /// every token of the query.
    pub fn check_match(&self, parsed_query: &ParsedQuery, point_id: PointOffsetType) -> (r: bool)
        requires
            self.wf(),
        ensures
            r == (self.document_len(point_id) is Some && forall|i: int|
                0 <= i < parsed_query.tokens@.len() ==> (
                #[trigger] parsed_query.tokens@[i] matches Some(t) && entry_holds(
                    self.posting(t),
                    point_id,
                ))),
    {
        if self.values_is_empty(point_id) {
            return false;
        }
        let mut i: usize = 0;
        while i < parsed_query.tokens.len()
            invariant
                i <= parsed_query.tokens.len(),
                self.wf(),
                forall|k: int|
                    0 <= k < i ==> (#[trigger] parsed_query.tokens@[k] matches Some(t)
                        && entry_holds(self.posting(t), point_id)),
            decreases parsed_query.tokens.len() - i,
        {
            let held: bool = match parsed_query.tokens[i] {
                None => false,
                Some(token) => {
                    let token_idx: usize = token as usize;
                    if token_idx >= self.postings.len() {
                        false
                    } else {
                        match &self.postings[token_idx] {
                            Some(list) => list.contains(&point_id),
                            None => false,
                        }
                    }
                },
            };
            if !held {
                assert(!(parsed_query.tokens@[i as int] matches Some(t) && entry_holds(
                    self.posting(t),
                    point_id,
                )));
                return false;
            }
            i = i + 1;
        }
        true
    }

    /// No word stands twice in the vocabulary: a word has one token only.
    pub proof fn lemma_words_apart(&self)
        requires
            self.wf(),
        ensures
            no_repeats(self.words()),
    {
    }

    /// The token of a word, `None` where the vocabulary does not hold it.
    pub fn get_token(&self, token: &str) -> (r: Option<TokenId>)
        requires
            self.wf(),
            self.words().len() <= u32::MAX,
        ensures
            match r {
                Some(t) => t < self.words().len() && self.words()[t as int] == token@,
                None => !self.words().contains(token@),
            },
            no_repeats(self.words()),
    {
        let word: String = token.to_owned();
        let pos: usize = find_word(&self.vocab, &word);
        if pos < self.vocab.len() {
            Some(pos as TokenId)
        } else {
            assert(!self.words().contains(token@)) by {
                if self.words().contains(token@) {
                    let k = choose|k: int| 0 <= k < self.words().len() && self.words()[k] == token@;
                    assert(self.vocab@[k]@ == token@);
                }
            }
            None
        }
    }

    /// Looks up the words of a text in the vocabulary, adds the unknown
    /// ones and makes the document of their tokens.
    pub fn document_from_tokens(&mut self, tokens: &Vec<String>) -> (r: Document)
        requires
            old(self).wf(),
            old(self).words().len() + tokens@.len() <= u32::MAX,
        ensures
            final(self).wf(),
            r.wf(),
            final(self).words() == extended(old(self).words(), text_of(tokens@)),
            document_says(r@, final(self).words(), text_of(tokens@)),
            final(self).spec_points_count() == old(self).spec_points_count(),
            forall|t: TokenId| final(self).posting(t) == old(self).posting(t),
            forall|idx: PointOffsetType| final(self).document_len(idx) == old(self).document_len(idx),
    {
        proof {
            lemma_extended(old(self).words(), text_of(tokens@));
        }
        document_from_tokens_impl(&mut self.vocab, tokens)
    }

    /// The row names the word of the token and the length of its list.
    pub open spec fn row_says(&self, row: (String, usize), token: TokenId) -> bool {
        &&& token < self.words().len()
        &&& row.0@ == self.words()[token as int]
        &&& self.posting(token) matches Some(list) && list.len() == row.1
    }

    /// The tokens whose list holds `threshold` points or more, in ascending
    /// order.
    pub open spec fn blocks(&self, threshold: usize) -> Seq<TokenId> {
        block_tokens(|t: TokenId| self.posting(t), self.words().len(), threshold)
    }

    fn words_with_postings(&self, threshold: usize) -> (r: Vec<(String, usize)>)
        requires
            self.wf(),
        ensures
            r@.len() == self.blocks(threshold).len(),
            forall|j: int|
                0 <= j < r@.len() ==> #[trigger] self.row_says(r@[j], self.blocks(threshold)[j]),
    {
        let ghost entries = |t: TokenId| self.posting(t);
        let mut out: Vec<(String, usize)> = Vec::new();
        let mut i: usize = 0;
        while i < self.vocab.len()
            invariant
                i <= self.vocab.len(),
                self.wf(),
                entries == (|t: TokenId| self.posting(t)),
                out@.len() == block_tokens(entries, i as nat, threshold).len(),
                forall|j: int|
                    0 <= j < out@.len() ==> #[trigger] self.row_says(
                        out@[j],
                        block_tokens(entries, i as nat, threshold)[j],
                    ),
            decreases self.vocab.len() - i,
        {
            let ghost before = out@;
            let ghost tokens_before = block_tokens(entries, i as nat, threshold);
            let ghost tokens_after = block_tokens(entries, (i + 1) as nat, threshold);
            let mut keep: Option<usize> = None;
            if i < self.postings.len() && i <= u32::MAX as usize {
                match &self.postings[i] {
                    Some(list) => {
                        let len: usize = list.len();
                        if len >= threshold {
                            keep = Some(len);
                        }
                    },
                    None => {},
                }
            }
            assert(match keep {
                Some(len) => i <= u32::MAX && (entries(i as TokenId) matches Some(list)
                    && list.len() == len && len >= threshold),
                None => !(i <= u32::MAX && (entries(i as TokenId) matches Some(list) && list.len()
                    >= threshold)),
            });
            match keep {
                Some(len) => {
                    out.push((self.vocab[i].clone(), len));
                    proof {
                        assert(self.words()[i as int] == self.vocab@[i as int]@);
                        assert(tokens_after == tokens_before.push(i as TokenId));
                    }
                },
                None => {
                    proof {
                        assert(tokens_after == tokens_before);
                    }
                },
            }
            proof {
                let after = out@;
                assert(after.len() == tokens_after.len());
                assert forall|j: int| 0 <= j < after.len() implies #[trigger] self.row_says(
                    after[j],
                    tokens_after[j],
                ) by {
                    if j < before.len() {
                        assert(after[j] == before[j]);
                        assert(tokens_after[j] == tokens_before[j]);
                        assert(self.row_says(before[j], tokens_before[j]));
                    } else {
                        assert(keep is Some);
                        assert(tokens_after[j] == i as TokenId);
                    }
                }
            }
            i = i + 1;
        }
        out
    }

    /// The words that have a list, each with the length of its list, in the
    /// order of their tokens.
    pub fn vocab_with_positngs_len_iter(&self) -> (r: Vec<(String, usize)>)
        requires
            self.wf(),
        ensures
            r@.len() == self.blocks(0).len(),
            forall|j: int| 0 <= j < r@.len() ==> #[trigger] self.row_says(r@[j], self.blocks(0)[j]),
    {
        self.words_with_postings(0)
    }

    fn posting_lengths(&self, query: &ParsedQuery) -> (r: Option<Vec<usize>>)
        requires
            self.wf(),
        ensures
            option_view(r) == query_lengths(|t: TokenId| self.posting(t), query.tokens@),
    {
        let ghost entries = |t: TokenId| self.posting(t);
        let mut lens: Vec<usize> = Vec::new();
        let mut i: usize = 0;
        proof {
            assert(query.tokens@.take(0) =~= Seq::<Option<TokenId>>::empty());
        }
        while i < query.tokens.len()
            invariant
                i <= query.tokens.len(),
                self.wf(),
                entries == (|t: TokenId| self.posting(t)),
                query_lengths(entries, query.tokens@.take(i as int)) == Some(lens@),
            decreases query.tokens.len() - i,
        {
            proof {
                assert(query.tokens@.take(i as int + 1).drop_last() =~= query.tokens@.take(
                    i as int,
                ));
                assert(query.tokens@.take(i as int + 1).last() == query.tokens@[i as int]);
            }
            let found: Option<usize> = match query.tokens[i] {
                None => None,
                Some(token) => {
                    let token_idx: usize = token as usize;
                    if token_idx >= self.postings.len() {
                        None
                    } else {
                        match &self.postings[token_idx] {
                            None => None,
                            Some(list) => Some(list.len()),
                        }
                    }
                },
            };
            match found {
                None => {
                    proof {
                        lemma_query_lengths_fail(entries, query.tokens@, i as int + 1);
                    }
                    return None;
                },
                Some(len) => {
                    lens.push(len);
                },
            }
            i = i + 1;
        }
        proof {
            assert(query.tokens@.take(query.tokens@.len() as int) =~= query.tokens@);
        }
        Some(lens)
    }
}

/// A mutable index whose lists and documents agree, and the immutable
/// index made of it, answer every query with the same points.
pub proof fn lemma_conversion_keeps_answers(
    mutable: &MutableInvertedIndex,
    immutable: &ImmutableInvertedIndex,
    query: Seq<Option<TokenId>>,
    idx: PointOffsetType,
)
    requires
        mutable.links_ok(),
        immutable.mirrors(mutable),
    ensures
        mutable.matches(query, idx) <==> immutable.matches(query, idx),
{
    if mutable.matches(query, idx) {
        assert(query[0] matches Some(t) && entry_holds(mutable.posting(t), idx));
        let first = query[0]->Some_0;
        assert(entry_holds(mutable.posting(first), idx));
        assert(mutable.document(idx) is Some);
        assert(immutable.document_len(idx) is Some);
        assert forall|i: int| 0 <= i < query.len() implies (#[trigger] query[i] matches Some(t)
            && entry_holds(immutable.posting(t), idx)) by {
            assert(query[i] matches Some(t) && entry_holds(mutable.posting(t), idx));
            let t = query[i]->Some_0;
            assert(immutable.posting(t) == mutable.posting(t));
        }
    }
    if immutable.matches(query, idx) {
        assert forall|i: int| 0 <= i < query.len() implies (#[trigger] query[i] matches Some(t)
            && entry_holds(mutable.posting(t), idx)) by {
            assert(query[i] matches Some(t) && entry_holds(immutable.posting(t), idx));
            let t = query[i]->Some_0;
            assert(immutable.posting(t) == mutable.posting(t));
        }
    }
}


/// A condition on a payload field: the text under the key holds the word.
#[derive(Debug, PartialEq, Eq)]
pub struct FieldCondition {
    pub key: String,
    pub text: String,
}

/// A condition that cuts a block of points out of a segment, with the size
/// of the block.
#[derive(Debug, PartialEq, Eq)]
pub struct PayloadBlockCondition {
    pub condition: FieldCondition,
    pub cardinality: usize,
}

/// The shortest of the lengths.
pub open spec fn smallest(lens: Seq<usize>) -> usize
    decreases lens.len(),
{
    if lens.len() == 0 {
        usize::MAX
    } else if lens.last() <= smallest(lens.drop_last()) {
        lens.last()
    } else {
        smallest(lens.drop_last())
    }
}

pub open spec fn no_matches() -> CardinalityEstimation {
    CardinalityEstimation { min: 0, exp: 0, max: 0 }
}

/// The estimate for a query from the lengths of the lists of its tokens.
/// No lengths, no points or no tokens: nothing matches. One token: its
/// list is the answer. More: at most the shortest list, and as many as
/// were to be expected if the tokens were spread over the points
/// independently.
pub open spec fn spec_estimate(points_count: usize, lens: Option<Seq<usize>>) -> CardinalityEstimation {
    match lens {
        None => no_matches(),
        Some(l) => if points_count == 0 || l.len() == 0 {
            no_matches()
        } else if l.len() == 1 {
            CardinalityEstimation { min: l[0], exp: l[0], max: l[0] }
        } else {
            CardinalityEstimation { min: 0, exp: spec_expected(l, points_count), max: smallest(l) }
        },
    }
}

fn estimate(points_count: usize, posting_lengths: Option<Vec<usize>>) -> (r: CardinalityEstimation)
    ensures
        r == spec_estimate(points_count, option_view(posting_lengths)),
{
    let postings: Vec<usize> = match posting_lengths {
        None => {
            return CardinalityEstimation { min: 0, exp: 0, max: 0 };
        },
        Some(v) => v,
    };
    if points_count == 0 || postings.len() == 0 {
        return CardinalityEstimation { min: 0, exp: 0, max: 0 };
    }
    if postings.len() == 1 {
        return CardinalityEstimation::exact(postings[0]);
    }
    let mut smallest_posting: usize = usize::MAX;
    let mut i: usize = 0;
    proof {
        assert(postings@.take(0) =~= Seq::<usize>::empty());
    }
    while i < postings.len()
        invariant
            i <= postings.len(),
            smallest_posting == smallest(postings@.take(i as int)),
        decreases postings.len() - i,
    {
        proof {
            assert(postings@.take(i as int + 1).drop_last() =~= postings@.take(i as int));
            assert(postings@.take(i as int + 1).last() == postings@[i as int]);
        }
        let len: usize = postings[i];
        if len <= smallest_posting {
            smallest_posting = len;
        }
        i = i + 1;
    }
    proof {
        assert(postings@.take(postings@.len() as int) =~= postings@);
    }
    let exp: usize = expected_count(&postings, points_count);
    CardinalityEstimation { min: 0, exp, max: smallest_posting }
}

/// An inverted index over the words of a text field: one that takes writes
/// or one that is compact and takes none.
#[derive(Debug)]
pub enum InvertedIndex {
    Mutable(MutableInvertedIndex),
    Immutable(ImmutableInvertedIndex),
}

impl InvertedIndex {
    /// True for an index that takes writes.
    pub open spec fn is_appendable(&self) -> bool {
        self is Mutable
    }

    pub open spec fn wf(&self) -> bool {
        match self {
            InvertedIndex::Mutable(index) => index.wf(),
            InvertedIndex::Immutable(index) => index.wf(),
        }
    }

    /// The list of the points filed under the token.
    pub open spec fn posting(&self, token: TokenId) -> Option<Seq<u32>> {
        match self {
            InvertedIndex::Mutable(index) => index.posting(token),
            InvertedIndex::Immutable(index) => index.posting(token),
        }
    }

    /// The list of a token is ascending and holds no point twice, so that
    /// the points that it holds fix the list and its length.
    pub proof fn lemma_posting_sorted(&self, token: TokenId)
        requires
            self.wf(),
        ensures
            self.posting(token) matches Some(list) ==> strictly_increasing(list),
    {
        match self {
            InvertedIndex::Mutable(index) => index.lemma_posting_sorted(token),
            InvertedIndex::Immutable(index) => index.lemma_posting_sorted(token),
        }
    }

    /// The vocabulary: the word of token `t` stands at position `t`.
    pub open spec fn words(&self) -> Seq<Seq<char>> {
        match self {
            InvertedIndex::Mutable(index) => index.words(),
            InvertedIndex::Immutable(index) => index.words(),
        }
    }

    pub open spec fn spec_points_count(&self) -> usize {
        match self {
            InvertedIndex::Mutable(index) => index.spec_points_count(),
            InvertedIndex::Immutable(index) => index.spec_points_count(),
        }
    }

    /// Number of tokens of the document of the point, `None` where the point
    /// has no document.
    pub open spec fn document_len(&self, idx: PointOffsetType) -> Option<nat> {
        match self {
            InvertedIndex::Mutable(index) => match index.document(idx) {
                Some(doc) => Some(doc.len()),
                None => None,
            },
            InvertedIndex::Immutable(index) => match index.document_len(idx) {
                Some(n) => Some(n as nat),
                None => None,
            },
        }
    }

    /// True when the point matches the query.
    pub open spec fn matches(&self, query: Seq<Option<TokenId>>, idx: PointOffsetType) -> bool {
        match self {
            InvertedIndex::Mutable(index) => index.matches(query, idx),
            InvertedIndex::Immutable(index) => index.matches(query, idx),
        }
    }

    /// An empty index: one that takes writes if `is_appendable`.
    pub fn new(is_appendable: bool) -> (r: InvertedIndex)
        ensures
            r.wf(),
            is_appendable <==> r.is_appendable(),
            r.words().len() == 0,
            r.spec_points_count() == 0,
            forall|t: TokenId| r.posting(t) is None,
            forall|idx: PointOffsetType| r.document_len(idx) is None,
    {
        if is_appendable {
            InvertedIndex::Mutable(MutableInvertedIndex::default())
        } else {
            InvertedIndex::Immutable(ImmutableInvertedIndex::default())
        }
    }

    /// Looks up the words of a text in the vocabulary, adds the unknown
    /// ones and makes the document of their tokens.
    pub fn document_from_tokens(&mut self, tokens: &Vec<String>) -> (r: Document)
        requires
            old(self).wf(),
            old(self).words().len() + tokens@.len() <= u32::MAX,
        ensures
            final(self).wf(),
            r.wf(),
            final(self).is_appendable() <==> old(self).is_appendable(),
            final(self).words() == extended(old(self).words(), text_of(tokens@)),
            document_says(r@, final(self).words(), text_of(tokens@)),
            final(self).spec_points_count() == old(self).spec_points_count(),
            forall|t: TokenId| final(self).posting(t) == old(self).posting(t),
            forall|idx: PointOffsetType| final(self).document_len(idx) == old(self).document_len(idx),
    {
        match self {
            InvertedIndex::Mutable(index) => index.document_from_tokens(tokens),
            InvertedIndex::Immutable(index) => index.document_from_tokens(tokens),
        }
    }

    /// Files the document under the point. An index that takes no writes
    /// refuses, and stays as it is.
    pub fn index_document(&mut self, idx: PointOffsetType, document: Document) -> (r: Result<
        (),
        OperationError,
    >)
        requires
            old(self).wf(),
            document.wf(),
        ensures
            final(self).wf(),
            old(self).is_appendable() ==> r is Ok,
            !old(self).is_appendable() ==> (r matches Err(
                OperationError::PreconditionFailed { description },
            ) && description@ == "Can't add values to immutable text index"@) && *final(self)
                == *old(self),
            final(self).is_appendable() <==> old(self).is_appendable(),
            r is Ok ==> {
                &&& final(self).words() == old(self).words()
                &&& final(self).spec_points_count() == count_up(old(self).spec_points_count())
                &&& final(self).document_len(idx) == Some(document@.len())
                &&& forall|other: PointOffsetType|
                    other != idx ==> final(self).document_len(other) == old(self).document_len(
                        other,
                    )
                &&& forall|t: TokenId|
                    #![trigger final(self).posting(t)]
                    final(self).posting(t) is Some <==> (old(self).posting(t) is Some
                        || document@.contains(t))
                &&& forall|t: TokenId, p: PointOffsetType|
                    #![trigger entry_holds(final(self).posting(t), p)]
                    entry_holds(final(self).posting(t), p) <==> (entry_holds(
                        old(self).posting(t),
                        p,
                    ) || (document@.contains(t) && p == idx))
            },
    {
        match self {
            InvertedIndex::Mutable(index) => {
                index.index_document(idx, document);
                Ok(())
            },
            InvertedIndex::Immutable(_index) => Err(
                OperationError::PreconditionFailed {
                    description: "Can't add values to immutable text index".to_string(),
                },
            ),
        }
    }

    /// Takes the document of the point out of the index. Says whether the
    /// point had one.
    pub fn remove_document(&mut self, idx: PointOffsetType) -> (r: bool)
        requires
            old(self).wf(),
        ensures
            final(self).wf(),
            final(self).is_appendable() <==> old(self).is_appendable(),
            r == old(self).document_len(idx) is Some,
            final(self).document_len(idx) is None,
            forall|other: PointOffsetType|
                other != idx ==> final(self).document_len(other) == old(self).document_len(other),
            final(self).words() == old(self).words(),
            final(self).spec_points_count() == if r {
                count_down(old(self).spec_points_count())
            } else {
                old(self).spec_points_count()
            },
            forall|query: Seq<Option<TokenId>>, p: PointOffsetType|
                p != idx ==> (#[trigger] final(self).matches(query, p) <==> old(self).matches(
                    query,
                    p,
                )),
    {
        let ghost before = *self;
        match self {
            InvertedIndex::Mutable(index) => {
                let ghost was = *index;
                let r: bool = index.remove_document(idx);
                proof {
                    assert forall|query: Seq<Option<TokenId>>, p: PointOffsetType|
                        p != idx implies (#[trigger] index.matches(query, p) <==> was.matches(
                            query,
                            p,
                        )) by {
                        if index.matches(query, p) {
                            assert forall|i: int| 0 <= i < query.len() implies (
                            #[trigger] query[i] matches Some(t) && entry_holds(
                                was.posting(t),
                                p,
                            )) by {
                                assert(query[i] matches Some(t) && entry_holds(
                                    index.posting(t),
                                    p,
                                ));
                            }
                        }
                        if was.matches(query, p) {
                            assert forall|i: int| 0 <= i < query.len() implies (
                            #[trigger] query[i] matches Some(t) && entry_holds(
                                index.posting(t),
                                p,
                            )) by {
                                assert(query[i] matches Some(t) && entry_holds(was.posting(t), p));
                            }
                        }
                    }
                }
                r
            },
            InvertedIndex::Immutable(index) => {
                let ghost was = *index;
                let r: bool = index.remove_document(idx);
                proof {
                    assert forall|query: Seq<Option<TokenId>>, p: PointOffsetType|
                        p != idx implies (#[trigger] index.matches(query, p) <==> was.matches(
                            query,
                            p,
                        )) by {
                        if index.matches(query, p) {
                            assert forall|i: int| 0 <= i < query.len() implies (
                            #[trigger] query[i] matches Some(t) && entry_holds(
                                was.posting(t),
                                p,
                            )) by {
                                assert(query[i] matches Some(t) && entry_holds(
                                    index.posting(t),
                                    p,
                                ));
                            }
                        }
                        if was.matches(query, p) {
                            assert forall|i: int| 0 <= i < query.len() implies (
                            #[trigger] query[i] matches Some(t) && entry_holds(
                                index.posting(t),
                                p,
                            )) by {
                                assert(query[i] matches Some(t) && entry_holds(was.posting(t), p));
                            }
                        }
                    }
                }
                r
            },
        }
    }

    /// The points that match the query, in ascending order. A query without
    /// tokens or with an unknown word matches nothing.
    pub fn filter(&self, query: &ParsedQuery) -> (r: Vec<PointOffsetType>)
        requires
            self.wf(),
        ensures
            strictly_increasing(r@),
            forall|idx: PointOffsetType| r@.contains(idx) <==> self.matches(query.tokens@, idx),
    {
        match self {
            InvertedIndex::Mutable(index) => index.filter(query),
            InvertedIndex::Immutable(index) => index.filter(query),
        }
    }

    /// The estimate that the lists give for the query.
    pub open spec fn spec_estimate_cardinality(&self, query: Seq<Option<TokenId>>) -> CardinalityEstimation {
        spec_estimate(self.spec_points_count(), query_lengths(|t: TokenId| self.posting(t), query))
    }

    /// Estimates how many points match the query.
    pub fn estimate_cardinality(&self, query: &ParsedQuery) -> (r: CardinalityEstimation)
        requires
            self.wf(),
        ensures
            r == self.spec_estimate_cardinality(query.tokens@),
    {
        match self {
            InvertedIndex::Mutable(index) => {
                let lens: Option<Vec<usize>> = index.posting_lengths(query);
                proof {
                    assert((|t: TokenId| self.posting(t)) =~= (|t: TokenId| index.posting(t)));
                }
                estimate(index.points_count, lens)
            },
            InvertedIndex::Immutable(index) => {
                let lens: Option<Vec<usize>> = index.posting_lengths(query);
                proof {
                    assert((|t: TokenId| self.posting(t)) =~= (|t: TokenId| index.posting(t)));
                }
                estimate(index.points_count, lens)
            },
        }
    }

    /// The tokens whose list holds `threshold` points or more, in ascending
    /// order.
    pub open spec fn blocks(&self, threshold: usize) -> Seq<TokenId> {
        block_tokens(|t: TokenId| self.posting(t), self.words().len(), threshold)
    }

    /// The block stands for the token: its condition asks for the word of
    /// the token under the key, and its size is the length of the list.
    pub open spec fn block_says(
        &self,
        block: PayloadBlockCondition,
        key: Seq<char>,
        token: TokenId,
    ) -> bool {
        &&& token < self.words().len()
        &&& block.condition.key@ == key
        &&& block.condition.text@ == self.words()[token as int]
        &&& self.posting(token) matches Some(list) && list.len() == block.cardinality
    }

    /// One block for each word that `threshold` points or more hold. What
    /// conditions go together is hard to foresee, so blocks are made for
    /// single words only.
    pub fn payload_blocks(&self, threshold: usize, key: String) -> (r: Vec<PayloadBlockCondition>)
        requires
            self.wf(),
        ensures
            r@.len() == self.blocks(threshold).len(),
            forall|j: int|
                0 <= j < r@.len() ==> #[trigger] self.block_says(
                    r@[j],
                    key@,
                    self.blocks(threshold)[j],
                ),
    {
        let rows: Vec<(String, usize)> = match self {
            InvertedIndex::Mutable(index) => {
                proof {
                    assert((|t: TokenId| self.posting(t)) =~= (|t: TokenId| index.posting(t)));
                }
                let rows = index.words_with_postings(threshold);
                proof {
                    assert forall|j: int| 0 <= j < rows@.len() implies #[trigger] self.row_says(
                        rows@[j],
                        self.blocks(threshold)[j],
                    ) by {
                        assert(index.row_says(rows@[j], index.blocks(threshold)[j]));
                    }
                }
                rows
            },
            InvertedIndex::Immutable(index) => {
                proof {
                    assert((|t: TokenId| self.posting(t)) =~= (|t: TokenId| index.posting(t)));
                }
                let rows = index.words_with_postings(threshold);
                proof {
                    assert forall|j: int| 0 <= j < rows@.len() implies #[trigger] self.row_says(
                        rows@[j],
                        self.blocks(threshold)[j],
                    ) by {
                        assert(index.row_says(rows@[j], index.blocks(threshold)[j]));
                    }
                }
                rows
            },
        };
        let mut out: Vec<PayloadBlockCondition> = Vec::new();
        let mut i: usize = 0;
        while i < rows.len()
            invariant
                i <= rows.len(),
                rows@.len() == self.blocks(threshold).len(),
                forall|j: int|
                    0 <= j < rows@.len() ==> #[trigger] self.row_says(
                        rows@[j],
                        self.blocks(threshold)[j],
                    ),
                out@.len() == i,
                forall|j: int|
                    0 <= j < i ==> #[trigger] self.block_says(
                        out@[j],
                        key@,
                        self.blocks(threshold)[j],
                    ),
            decreases rows.len() - i,
        {
            let ghost before = out@;
            assert(self.row_says(rows@[i as int], self.blocks(threshold)[i as int]));
            out.push(
                PayloadBlockCondition {
                    condition: FieldCondition { key: key.clone(), text: rows[i].0.clone() },
                    cardinality: rows[i].1,
                },
            );
            proof {
                assert forall|j: int| 0 <= j < i + 1 implies #[trigger] self.block_says(
                    out@[j],
                    key@,
                    self.blocks(threshold)[j],
                ) by {
                    if j < i {
                        assert(out@[j] == before[j]);
                        assert(self.block_says(before[j], key@, self.blocks(threshold)[j]));
                    }
                }
            }
            i = i + 1;
        }
        out
    }

    /// The row names the word of the token and the length of its list.
    pub open spec fn row_says(&self, row: (String, usize), token: TokenId) -> bool {
        &&& token < self.words().len()
        &&& row.0@ == self.words()[token as int]
        &&& self.posting(token) matches Some(list) && list.len() == row.1
    }

    /// Builds the index anew from texts filed under points. A point that
    /// stands twice among the items keeps its last text, and is counted
    /// twice.
    pub fn build_index(&mut self, items: &Vec<(PointOffsetType, Vec<String>)>)
        requires
            total_words(items@) <= u32::MAX,
        ensures
            final(self).wf(),
            final(self).is_appendable() <==> old(self).is_appendable(),
            final(self).spec_points_count() == items@.len(),
            final(self).words() == built_words(items@),
            forall|idx: PointOffsetType|
                #[trigger] final(self).document_len(idx) is Some <==> last_text(items@, idx) is Some,
    {
        let mut index: MutableInvertedIndex = MutableInvertedIndex::default();
        index.build_index(items);
        proof {
            assert forall|idx: PointOffsetType|
                index.document(idx) is Some <==> last_text(items@, idx) is Some by {
                match last_text(items@, idx) {
                    Some(text) => {},
                    None => {},
                }
            }
        }
        match self {
            InvertedIndex::Mutable(i) => {
                *i = index;
            },
            InvertedIndex::Immutable(i) => {
                let ghost built = index;
                *i = ImmutableInvertedIndex::from_mutable(index);
                proof {
                    assert forall|idx: PointOffsetType|
                        i.document_len(idx) is Some <==> built.document(idx) is Some by {
                        assert(same_length(i.document_len(idx), built.document(idx)));
                    }
                }
            },
        }
    }

    /// True when the point has a document that matches the query.
    pub fn check_match(&self, parsed_query: &ParsedQuery, point_id: PointOffsetType) -> (r: bool)
        requires
            self.wf(),
        ensures
            self matches InvertedIndex::Mutable(index) ==> r == match index.document(point_id) {
                Some(doc) => parsed_query.spec_check_match(doc),
                None => false,
            },
            self matches InvertedIndex::Immutable(index) ==> r == (index.document_len(point_id) is Some
                && forall|i: int|
                0 <= i < parsed_query.tokens@.len() ==> (
                #[trigger] parsed_query.tokens@[i] matches Some(t) && entry_holds(
                    index.posting(t),
                    point_id,
                ))),
    {
        match self {
            InvertedIndex::Mutable(index) => index.check_match(parsed_query, point_id),
            InvertedIndex::Immutable(index) => index.check_match(parsed_query, point_id),
        }
    }

    /// True when the point has no document; on an index that takes writes
    /// also when its document is empty.
    pub fn values_is_empty(&self, point_id: PointOffsetType) -> (r: bool)
        requires
            self.wf(),
        ensures
            r == match self.document_len(point_id) {
                Some(n) => self.is_appendable() && n == 0,
                None => true,
            },
    {
        match self {
            InvertedIndex::Mutable(index) => index.values_is_empty(point_id),
            InvertedIndex::Immutable(index) => index.values_is_empty(point_id),
        }
    }

    /// Number of tokens of the document of the point, zero without one.
    pub fn values_count(&self, point_id: PointOffsetType) -> (r: usize)
        requires
            self.wf(),
        ensures
            r == match self.document_len(point_id) {
                Some(n) => n,
                None => 0,
            },
    {
        match self {
            InvertedIndex::Mutable(index) => index.values_count(point_id),
            InvertedIndex::Immutable(index) => index.values_count(point_id),
        }
    }

    /// Number of documents that the index counts.
    pub fn points_count(&self) -> (r: usize)
        ensures
            r == self.spec_points_count(),
    {
        match self {
            InvertedIndex::Mutable(index) => index.points_count,
            InvertedIndex::Immutable(index) => index.points_count,
        }
    }

    /// No word stands twice in the vocabulary: a word has one token only.
    pub proof fn lemma_words_apart(&self)
        requires
            self.wf(),
        ensures
            no_repeats(self.words()),
    {
        match self {
            InvertedIndex::Mutable(index) => index.lemma_words_apart(),
            InvertedIndex::Immutable(index) => index.lemma_words_apart(),
        }
    }

    /// The token of a word, `None` where the vocabulary does not hold it.
    pub fn get_token(&self, token: &str) -> (r: Option<TokenId>)
        requires
            self.wf(),
            self.words().len() <= u32::MAX,
        ensures
            match r {
                Some(t) => t < self.words().len() && self.words()[t as int] == token@,
                None => !self.words().contains(token@),
            },
            no_repeats(self.words()),
    {
        match self {
            InvertedIndex::Mutable(index) => index.get_token(token),
            InvertedIndex::Immutable(index) => index.get_token(token),
        }
    }
}

/// A query with a word that the vocabulary does not know matches no point,
/// and its estimate is zero throughout.
pub proof fn lemma_unknown_word_matches_nothing(
    index: &InvertedIndex,
    query: Seq<Option<TokenId>>,
    i: int,
)
    requires
        0 <= i < query.len(),
        query[i] is None,
    ensures
        index.spec_estimate_cardinality(query) == no_matches(),
        forall|idx: PointOffsetType| !index.matches(query, idx),
{
    lemma_query_lengths_unknown(|t: TokenId| index.posting(t), query, i);
    assert forall|idx: PointOffsetType| !index.matches(query, idx) by {
        match index {
            InvertedIndex::Mutable(inner) => {
                if inner.matches(query, idx) {
                    assert(query[i] matches Some(t) && entry_holds(inner.posting(t), idx));
                }
            },
            InvertedIndex::Immutable(inner) => {
                if inner.matches(query, idx) {
                    assert(query[i] matches Some(t) && entry_holds(inner.posting(t), idx));
                }
            },
        }
    }
}

} // verus!
