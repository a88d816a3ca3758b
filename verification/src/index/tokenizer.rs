//! The tokenizers that an index knows, by name.

use vstd::prelude::*;

verus! {

/// A tokenizer with its filters, by its number in the table of those that are loaded.
#[derive(Clone, Copy, Debug, PartialEq, Eq, Structural)]
pub struct TextAnalyzer {
    pub number: u64,
}

/// Tokenizers by name.
#[derive(Debug)]
pub struct TokenizerManager {
    entries: Vec<(String, TextAnalyzer)>,
}

/// The tokenizer registered last under `name` among the first `count` entries.
pub open spec fn analyzer_among(
    entries: Seq<(String, TextAnalyzer)>,
    name: Seq<char>,
    count: nat,
) -> Option<TextAnalyzer>
    decreases count,
{
    if count == 0 {
        None
    } else if entries[count - 1].0@ == name {
        Some(entries[count - 1].1)
    } else {
        analyzer_among(entries, name, (count - 1) as nat)
    }
}

impl TokenizerManager {
    /// The entries, those registered later behind those registered earlier.
    pub closed spec fn entries(self) -> Seq<(String, TextAnalyzer)> {
        self.entries@
    }

    /// The tokenizer under `name`.
    pub open spec fn spec_get(self, name: Seq<char>) -> Option<TextAnalyzer> {
        analyzer_among(self.entries(), name, self.entries().len())
    }

    /// No tokenizers.
    pub fn new() -> (manager: TokenizerManager)
        ensures
            forall|name: Seq<char>| (#[trigger] manager.spec_get(name)) is None,
    {
        TokenizerManager { entries: Vec::new() }
    }

    /// Registers a tokenizer. One that was registered under the same name before is replaced.
    pub fn register(&mut self, tokenizer_name: &str, tokenizer: TextAnalyzer)
        ensures
            final(self).spec_get(tokenizer_name@) == Some(tokenizer),
            forall|name: Seq<char>|
                name != tokenizer_name@ ==> #[trigger] final(self).spec_get(name) == old(
                    self,
                ).spec_get(name),
    {
        let ghost before = self.entries@;
        self.entries.push((tokenizer_name.to_owned(), tokenizer));
        proof {
            assert forall|name: Seq<char>|
                name != tokenizer_name@ implies #[trigger] self.spec_get(name) == old(
                self,
            ).spec_get(name) by {
                lemma_prefix(before, self.entries@, name, before.len());
            }
        }
    }

    /// The tokenizer under `tokenizer_name`.
    pub fn get(&self, tokenizer_name: &str) -> (tokenizer: Option<TextAnalyzer>)
        ensures
            tokenizer == self.spec_get(tokenizer_name@),
    {
        let name: String = tokenizer_name.to_owned();
        let mut count: usize = self.entries.len();
        while count > 0
            invariant
                count <= self.entries@.len(),
                name@ == tokenizer_name@,
                self.spec_get(tokenizer_name@) == analyzer_among(
                    self.entries@,
                    tokenizer_name@,
                    count as nat,
                ),
            decreases count,
        {
            if self.entries[count - 1].0.eq(&name) {
                return Some(self.entries[count - 1].1);
            }
            count = count - 1;
        }
        None
    }
}

/// The tokenizers that every index knows are there, and no others.
pub open spec fn has_default_tokenizers(manager: TokenizerManager) -> bool {
    &&& manager.spec_get("raw"@) == Some(TextAnalyzer { number: 0 })
    &&& manager.spec_get("default"@) == Some(TextAnalyzer { number: 1 })
    &&& manager.spec_get("en_stem"@) == Some(TextAnalyzer { number: 2 })
    &&& manager.spec_get("whitespace"@) == Some(TextAnalyzer { number: 3 })
    &&& forall|name: Seq<char>|
        name != "raw"@ && name != "default"@ && name != "en_stem"@ && name != "whitespace"@ ==> (
        #[trigger] manager.spec_get(name)) is None
}

impl Default for TokenizerManager {
    fn default() -> (manager: Self)
        ensures
            has_default_tokenizers(manager),
    {
        proof {
            reveal_strlit("raw");
            reveal_strlit("default");
            reveal_strlit("en_stem");
            reveal_strlit("whitespace");
            assert("raw"@.len() != "default"@.len());
            assert("raw"@.len() != "en_stem"@.len());
            assert("raw"@.len() != "whitespace"@.len());
            assert("default"@[0] != "en_stem"@[0]);
            assert("default"@.len() != "whitespace"@.len());
            assert("en_stem"@.len() != "whitespace"@.len());
        }
        let mut manager = TokenizerManager::new();
        manager.register("raw", TextAnalyzer { number: 0 });
        manager.register("default", TextAnalyzer { number: 1 });
        manager.register("en_stem", TextAnalyzer { number: 2 });
        manager.register("whitespace", TextAnalyzer { number: 3 });
        manager
    }
}

proof fn lemma_prefix(
    shorter: Seq<(String, TextAnalyzer)>,
    longer: Seq<(String, TextAnalyzer)>,
    name: Seq<char>,
    count: nat,
)
    requires
        count <= shorter.len() <= longer.len(),
        forall|i: int| 0 <= i < shorter.len() ==> #[trigger] longer[i] == shorter[i],
    ensures
        analyzer_among(longer, name, count) == analyzer_among(shorter, name, count),
    decreases count,
{
    if count > 0 {
        assert(longer[count - 1] == shorter[count - 1]);
        lemma_prefix(shorter, longer, name, (count - 1) as nat);
    }
}

} // verus!
