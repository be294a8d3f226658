//! A vocabulary with its special tokens: encoding text to token ids and back.

use vstd::prelude::*;
use vstd::utf8::*;

use crate::bpe::{bpe, bpe_encode};
use crate::languages::LANGUAGE_COUNT;
use crate::pieces::{pieces, split_tiktoken_pieces};
use crate::special::{
    language_width, special_bytes, special_count, special_names_are_distinct, special_token_name,
};
use crate::table::{ByteTable, IdTable};
use crate::text::{lines, slice_to_vec};
use crate::unicode::{decode_lossy, lossy_text, REPLACEMENT};
use crate::vocabulary::{entry_views, line_entries, read_vocabulary, VocabularyError};

verus! {

/// A table from the tokens of a list to their ranks; later pairs take the place of earlier ones.
pub open spec fn entry_ranks(entries: Seq<(Seq<u8>, u32)>) -> Map<Seq<u8>, u32>
    decreases entries.len(),
{
    if entries.len() == 0 {
        Map::empty()
    } else {
        entry_ranks(entries.drop_last()).insert(entries.last().0, entries.last().1)
    }
}

/// A table from the ranks of a list to their tokens; later pairs take the place of earlier ones.
pub open spec fn entry_tokens(entries: Seq<(Seq<u8>, u32)>) -> Map<u32, Seq<u8>>
    decreases entries.len(),
{
    if entries.len() == 0 {
        Map::empty()
    } else {
        entry_tokens(entries.drop_last()).insert(entries.last().1, entries.last().0)
    }
}

/// `ranks` with the first `n` special tokens added, numbered from `base`.
pub open spec fn with_special_ranks(
    ranks: Map<Seq<u8>, u32>,
    width: nat,
    base: nat,
    n: nat,
) -> Map<Seq<u8>, u32>
    decreases n,
{
    if n == 0 {
        ranks
    } else {
        with_special_ranks(ranks, width, base, (n - 1) as nat).insert(
            special_bytes(width, n - 1),
            (base + n - 1) as u32,
        )
    }
}

/// `tokens` with the first `n` special tokens added, numbered from `base`.
pub open spec fn with_special_tokens(
    tokens: Map<u32, Seq<u8>>,
    width: nat,
    base: nat,
    n: nat,
) -> Map<u32, Seq<u8>>
    decreases n,
{
    if n == 0 {
        tokens
    } else {
        with_special_tokens(tokens, width, base, (n - 1) as nat).insert(
            (base + n - 1) as u32,
            special_bytes(width, n - 1),
        )
    }
}

/// Each special token that was added is found by its bytes, and has the id of its position.
pub proof fn lemma_special_ranks(ranks: Map<Seq<u8>, u32>, width: nat, base: nat, n: nat, k: int)
    requires
        width <= LANGUAGE_COUNT,
        n <= special_count(width),
        0 <= k < n,
    ensures
        with_special_ranks(ranks, width, base, n).contains_key(special_bytes(width, k)),
        with_special_ranks(ranks, width, base, n)[special_bytes(width, k)] == (base + k) as u32,
    decreases n,
{
    if k < n - 1 {
        lemma_special_ranks(ranks, width, base, (n - 1) as nat, k);
        special_names_are_distinct(width, n - 1, k);
    }
}

/// Each special token that was added is found by its id.
pub proof fn lemma_special_tokens(tokens: Map<u32, Seq<u8>>, width: nat, base: nat, n: nat, k: int)
    requires
        base + n <= u32::MAX,
        0 <= k < n,
    ensures
        with_special_tokens(tokens, width, base, n).contains_key((base + k) as u32),
        with_special_tokens(tokens, width, base, n)[(base + k) as u32] == special_bytes(width, k),
    decreases n,
{
    if k < n - 1 {
        lemma_special_tokens(tokens, width, base, (n - 1) as nat, k);
    }
}

/// What is no special token is what it was before.
pub proof fn lemma_other_ranks(
    ranks: Map<Seq<u8>, u32>,
    width: nat,
    base: nat,
    n: nat,
    bytes: Seq<u8>,
)
    requires
        forall|k: int| 0 <= k < n ==> #[trigger] special_bytes(width, k) != bytes,
    ensures
        with_special_ranks(ranks, width, base, n).contains_key(bytes) == ranks.contains_key(bytes),
        ranks.contains_key(bytes) ==> with_special_ranks(ranks, width, base, n)[bytes]
            == ranks[bytes],
    decreases n,
{
    if n > 0 {
        assert(special_bytes(width, n - 1) != bytes);
        lemma_other_ranks(ranks, width, base, (n - 1) as nat, bytes);
    }
}

/// What is filed under an id below the special tokens is what was filed there before.
pub proof fn lemma_other_tokens(tokens: Map<u32, Seq<u8>>, width: nat, base: nat, n: nat, id: u32)
    requires
        base + n <= u32::MAX,
        id < base,
    ensures
        with_special_tokens(tokens, width, base, n).contains_key(id) == tokens.contains_key(id),
        tokens.contains_key(id) ==> with_special_tokens(tokens, width, base, n)[id] == tokens[id],
    decreases n,
{
    if n > 0 {
        lemma_other_tokens(tokens, width, base, (n - 1) as nat, id);
    }
}

/// Whether the ids of the special tokens behind a vocabulary fit in 32 bits.
pub open spec fn ids_fit(file: Seq<(Seq<u8>, u32)>, num_languages: nat) -> bool {
    entry_tokens(file).len() + special_count(language_width(num_languages)) <= u32::MAX
}

/// The bytes of those ids that have a token.
pub open spec fn bytes_of_ids(ids: Seq<u32>, tokens: Map<u32, Seq<u8>>) -> Seq<u8>
    decreases ids.len(),
{
    if ids.len() == 0 {
        seq![]
    } else if tokens.contains_key(ids.last()) {
        bytes_of_ids(ids.drop_last(), tokens) + tokens[ids.last()]
    } else {
        bytes_of_ids(ids.drop_last(), tokens)
    }
}

/// The text of a list of ids.
pub open spec fn text_of_ids(ids: Seq<u32>, tokens: Map<u32, Seq<u8>>) -> Seq<char> {
    lossy_text(bytes_of_ids(ids, tokens))
}

/// The ids of a list of pieces, one after the other.
pub open spec fn ids_of_pieces(pieces: Seq<Seq<char>>, ranks: Map<Seq<u8>, u32>) -> Seq<u32>
    decreases pieces.len(),
{
    if pieces.len() == 0 {
        seq![]
    } else {
        ids_of_pieces(pieces.drop_last(), ranks) + bpe(encode_utf8(pieces.last()), ranks)
    }
}

/// The ids of a text.
pub open spec fn ids_of_text(text: Seq<char>, ranks: Map<Seq<u8>, u32>) -> Seq<u32> {
    ids_of_pieces(pieces(text), ranks)
}

/// A vocabulary with its special tokens.
pub struct Encoding {
    pub name: String,
    /// From ids to the bytes of their tokens.
    pub vocab: IdTable,
    /// From the bytes of tokens to their ids.
    pub encoder: ByteTable,
    /// From the UTF-8 form of each special token's name to its id.
    pub special_tokens: ByteTable,
    /// The id of the end of a text, which is the first special token.
    pub eot_token: u32,
    /// The number of languages that have a token.
    pub width: usize,
}

impl Encoding {
    /// The id of special token `k`.
    pub open spec fn special_id(self, k: int) -> u32 {
        (self.eot_token + k) as u32
    }

    /// The special tokens are those of `special_name`, numbered from the end of text, and both
    /// tables hold them.
    pub open spec fn wf(self) -> bool {
        &&& self.width <= LANGUAGE_COUNT
        &&& self.eot_token + special_count(self.width as nat) <= u32::MAX
        &&& self.special_tokens@ == with_special_ranks(
            Map::empty(),
            self.width as nat,
            self.eot_token as nat,
            special_count(self.width as nat),
        )
        &&& forall|k: int|
            0 <= k < special_count(self.width as nat) ==> {
                let bytes = #[trigger] special_bytes(self.width as nat, k);
                &&& self.encoder@.contains_key(bytes)
                &&& self.encoder@[bytes] == self.special_id(k)
                &&& self.vocab@.contains_key(self.special_id(k))
                &&& self.vocab@[self.special_id(k)] == bytes
            }
    }

    /// Whether this is the encoding made of the tokens and ranks of `file`: both tables hold them
    /// and the special tokens, which are numbered from the number of different ranks.
    pub open spec fn built_from(
        self,
        file: Seq<(Seq<u8>, u32)>,
        name: Seq<char>,
        num_languages: nat,
    ) -> bool {
        let base = entry_tokens(file).len();
        let width = language_width(num_languages);
        &&& self.wf()
        &&& self.name@ == name
        &&& self.width == width
        &&& self.eot_token == base
        &&& self.encoder@ == with_special_ranks(
            entry_ranks(file),
            width,
            base,
            special_count(width),
        )
        &&& self.vocab@ == with_special_tokens(
            entry_tokens(file),
            width,
            base,
            special_count(width),
        )
    }

    /// What special token `k` is found as in the table of special tokens.
    pub proof fn lemma_special_token(self, k: int)
        requires
            self.wf(),
            0 <= k < special_count(self.width as nat),
        ensures
            self.special_tokens@.contains_key(special_bytes(self.width as nat, k)),
            self.special_tokens@[special_bytes(self.width as nat, k)] == self.special_id(k),
    {
        lemma_special_ranks(
            Map::empty(),
            self.width as nat,
            self.eot_token as nat,
            special_count(self.width as nat),
            k,
        );
    }

    /// What is no special token's name is not in the table of special tokens.
    pub proof fn lemma_no_special_token(self, bytes: Seq<u8>)
        requires
            self.wf(),
            forall|k: int|
                0 <= k < special_count(self.width as nat) ==> #[trigger] special_bytes(self.width as nat, k)
                    != bytes,
        ensures
            !self.special_tokens@.contains_key(bytes),
    {
        lemma_other_ranks(
            Map::empty(),
            self.width as nat,
            self.eot_token as nat,
            special_count(self.width as nat),
            bytes,
        );
    }

    /// Builds an encoding from the tokens and ranks of a vocabulary, and numbers the special
    /// tokens from the number of different ranks.
    pub fn from_entries(
        entries: &Vec<(Vec<u8>, u32)>,
        name: &str,
        num_languages: usize,
    ) -> (r: Result<Encoding, VocabularyError>)
        ensures
            match r {
                Ok(e) => ids_fit(entry_views(entries@), num_languages as nat) && e.built_from(
                    entry_views(entries@),
                    name@,
                    num_languages as nat,
                ),
                Err(e) => !ids_fit(entry_views(entries@), num_languages as nat) && e
                    == VocabularyError::TooManyTokens,
            },
    {
        let ghost file = entry_views(entries@);
        let mut vocab = IdTable::new();
        let mut encoder = ByteTable::new();
        let mut i: usize = 0;
        while i < entries.len()
            invariant
                i <= entries@.len(),
                file == entry_views(entries@),
                encoder@ == entry_ranks(file.take(i as int)),
                vocab@ == entry_tokens(file.take(i as int)),
            decreases entries@.len() - i,
        {
            assert(file.take(i + 1).drop_last() =~= file.take(i as int));
            assert(file.take(i + 1).last() == (entries@[i as int].0@, entries@[i as int].1));
            encoder.insert(&entries[i].0, entries[i].1);
            vocab.insert(entries[i].1, slice_to_vec(&entries[i].0));
            i += 1;
        }
        assert(file.take(i as int) =~= file);
        let ghost width_ = language_width(num_languages as nat);
        let ghost base_ = entry_tokens(file).len();
        let n: usize = vocab.len();
        let width: usize = if num_languages < LANGUAGE_COUNT {
            num_languages
        } else {
            LANGUAGE_COUNT
        };
        let count: usize = width + 1509;
        assert(count == special_count(width as nat));
        if n > 0xffff_ffff - count {
            return Err(VocabularyError::TooManyTokens);
        }
        let mut special_tokens = ByteTable::new();
        let mut k: usize = 0;
        while k < count
            invariant
                k <= count,
                width <= LANGUAGE_COUNT,
                width == width_,
                count == special_count(width as nat),
                n + count <= u32::MAX,
                n == base_,
                encoder@ == with_special_ranks(entry_ranks(file), width_, base_, k as nat),
                special_tokens@ == with_special_ranks(Map::empty(), width_, base_, k as nat),
                vocab@ == with_special_tokens(
                    entry_tokens(file),
                    width_,
                    base_,
                    k as nat,
                ),
            decreases count - k,
        {
            let token = special_token_name(width, k);
            let bytes = slice_to_vec(token.as_str().as_bytes());
            assert(bytes@ == special_bytes(width_, k as int));
            let id: u32 = (n + k) as u32;
            special_tokens.insert(&bytes, id);
            encoder.insert(&bytes, id);
            vocab.insert(id, bytes);
            k += 1;
        }
        let e = Encoding {
            name: name.to_owned(),
            vocab,
            encoder,
            special_tokens,
            eot_token: n as u32,
            width,
        };
        assert(e.wf()) by {
            assert forall|k: int| 0 <= k < special_count(e.width as nat) implies {
                let bytes = #[trigger] special_bytes(e.width as nat, k);
                &&& e.encoder@.contains_key(bytes)
                &&& e.encoder@[bytes] == e.special_id(k)
                &&& e.vocab@.contains_key(e.special_id(k))
                &&& e.vocab@[e.special_id(k)] == bytes
            } by {
                lemma_special_ranks(entry_ranks(file), width_, base_, count as nat, k);
                lemma_special_tokens(entry_tokens(file), width_, base_, count as nat, k);
            }
        }
        Ok(e)
    }

    /// Reads a vocabulary and adds the special tokens.
    ///
    /// Each line of `content` holds a token in Base64 and its rank; empty lines are left out.
    pub fn from_tiktoken_file(content: &str, name: &str, num_languages: usize) -> (r: Result<
        Encoding,
        VocabularyError,
    >)
        ensures
            match line_entries(lines(content@)) {
                Ok(file) => match r {
                    Ok(e) => ids_fit(file, num_languages as nat) && e.built_from(
                        file,
                        name@,
                        num_languages as nat,
                    ),
                    Err(e) => !ids_fit(file, num_languages as nat) && e
                        == VocabularyError::TooManyTokens,
                },
                Err(e) => r == Err::<Encoding, _>(e),
            },
    {
        match read_vocabulary(content) {
            Ok(entries) => Encoding::from_entries(&entries, name, num_languages),
            Err(e) => Err(e),
        }
    }

    /// The text of a list of ids; an id without a token is left out.
    pub fn decode(&self, token_ids: &[u32]) -> (r: String)
        ensures
            r@ == text_of_ids(token_ids@, self.vocab@),
            !valid_utf8(bytes_of_ids(token_ids@, self.vocab@)) ==> r@.contains(REPLACEMENT),
    {
        let mut bytes: Vec<u8> = Vec::new();
        let mut i: usize = 0;
        while i < token_ids.len()
            invariant
                i <= token_ids@.len(),
                bytes@ == bytes_of_ids(token_ids@.take(i as int), self.vocab@),
            decreases token_ids@.len() - i,
        {
            assert(token_ids@.take(i + 1).drop_last() =~= token_ids@.take(i as int));
            if let Some(token) = self.vocab.get(token_ids[i]) {
                bytes.extend_from_slice(token);
            }
            i += 1;
        }
        assert(token_ids@.take(i as int) =~= token_ids@);
        decode_lossy(&bytes)
    }

    /// The ids of a text: its pieces, each in byte-pair encoding.
    pub fn encode(&self, text: &str) -> (r: Vec<u32>)
        ensures
            r@ == ids_of_text(text@, self.encoder@),
    {
        let list = split_tiktoken_pieces(text);
        let ghost all = pieces(text@);
        let mut ids: Vec<u32> = Vec::new();
        let mut i: usize = 0;
        while i < list.len()
            invariant
                i <= list@.len(),
                list@.len() == all.len(),
                forall|j: int| 0 <= j < list@.len() ==> (#[trigger] list@[j])@ == all[j],
                ids@ == ids_of_pieces(all.take(i as int), self.encoder@),
            decreases list@.len() - i,
        {
            assert(all.take(i + 1).drop_last() =~= all.take(i as int));
            assert(all.take(i + 1).last() == list@[i as int]@);
            let mut piece = bpe_encode(list[i].as_str().as_bytes(), &self.encoder);
            ids.append(&mut piece);
            i += 1;
        }
        assert(all.take(i as int) =~= all);
        ids
    }

    /// The id of a token given by its text.
    pub fn encode_single_token(&self, token: &str) -> (r: Option<u32>)
        ensures
            r == (if self.encoder@.contains_key(encode_utf8(token@)) {
                Some(self.encoder@[encode_utf8(token@)])
            } else if self.special_tokens@.contains_key(encode_utf8(token@)) {
                Some(self.special_tokens@[encode_utf8(token@)])
            } else {
                None
            }),
    {
        match self.encoder.get(token.as_bytes()) {
            Some(id) => Some(id),
            None => self.special_tokens.get(token.as_bytes()),
        }
    }
}

} // verus!
