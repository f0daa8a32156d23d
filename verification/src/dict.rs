//! User dictionaries: words for segmentation and groups of synonyms.

use jieba_rs::Jieba;
use vstd::hash_map::StringHashMap;
use vstd::prelude::*;
use vstd::string::StringExecFns;
use vstd::utf8::*;

use crate::parse::{decodable, decode_gb18030, gb18030_text};
use crate::paths::{join_path, joins_path, option_text};
use crate::text::{
    byte_len, chars_of, decimal, decimal_of, decode, drop_space, holds_char, lemma_encode_concat,
    lemma_first_word, lemma_line_end, lemma_offset_monotonic, lemma_offset_subrange, lemma_trimmed,
    lemma_trimmed_start, line_end, lowered, number, parse_number, part_of, same, skip_space,
    split_words, string_of, texts, to_lowered, trim, trim_chars, trimmed, words,
};
use crate::tokenize::{has_tokens, searchable};

verus! {

/// Name of the file of words for segmentation in the data directory.
pub const USER_WORDS_FILE: &'static str = "user_dict.txt";

/// Name of the file of synonyms in the data directory.
pub const SYNONYMS_FILE: &'static str = "synonyms.txt";

/// What a new file of words for segmentation holds.
pub const USER_WORDS_TEMPLATE: &'static str = "# 分词用户词:每行「词 [词频] [词性]」,空格分隔。\n# 词频留空则自动推断,建议留空。改完在设置页点「重新加载」即可生效。\n# 只在检索的「宽松」模式下影响切词。\n# 示例:\n# 深度学习\n# 向量数据库 2000\n";

/// What a new file of synonyms holds.
pub const SYNONYMS_TEMPLATE: &'static str = "# 同义词:每行一组,组内用空格分隔;一个词只能出现在一组里。\n# 搜到组内任意一个词,都会同时召回含其它词的文档。\n# 示例:\n# 电脑 计算机 pc\n# 文档 文件 档案\n";

/// Most characters of a word.
pub const MAX_TERM_CHARS: usize = 64;

/// Most members of a group of synonyms.
pub const MAX_GROUP_MEMBERS: usize = 32;

/// Most problems that a report lists.
pub const MAX_REPORTED_PROBLEMS: usize = 5;

/// Most variants that synonyms may add to one query. Words that the user
/// wrote into the query do not count.
pub const MAX_EXTRA_VARIANTS: usize = 64;

/// Most entries that a dictionary file may bring in.
pub const MAX_ENTRIES: usize = 10_000;

/// Frequencies up to this one can be summed over a full dictionary.
pub const MAX_FREQUENCY: usize = usize::MAX / 20_000;

/// The frequencies of added words may come to this much together, which leaves
/// room for those of the built-in words.
pub const MAX_FREQUENCY_SUM: usize = usize::MAX / 2;

/// The members of each group.
pub open spec fn group_texts(groups: Seq<Vec<String>>) -> Seq<Seq<Seq<char>>> {
    groups.map_values(|group: Vec<String>| texts(group@))
}

/// Some member of the group is `key` once its ASCII letters are lowered.
pub open spec fn holds_key(group: Seq<Seq<char>>, key: Seq<char>) -> bool {
    exists|i: int| 0 <= i < group.len() && lowered(#[trigger] group[i]) == key
}

/// The last group that holds a key.
pub open spec fn group_of(groups: Seq<Seq<Seq<char>>>, key: Seq<char>) -> Option<Seq<Seq<char>>>
    decreases groups.len(),
{
    if groups.len() == 0 {
        None
    } else if holds_key(groups.last(), key) {
        Some(groups.last())
    } else {
        group_of(groups.drop_last(), key)
    }
}

/// What a term stands for: its whole group, or itself where no group has it.
pub open spec fn expansion(groups: Seq<Seq<Seq<char>>>, term: Seq<char>) -> Seq<Seq<char>> {
    match group_of(groups, lowered(term)) {
        Some(group) => group,
        None => seq![term],
    }
}

/// A group that a term leads to has the term in it, so it is not empty.
pub proof fn lemma_expansion_has_members(groups: Seq<Seq<Seq<char>>>, term: Seq<char>)
    ensures
        expansion(groups, term).len() > 0,
    decreases groups.len(),
{
    if groups.len() > 0 && !holds_key(groups.last(), lowered(term)) {
        lemma_expansion_has_members(groups.drop_last(), term);
    }
}

/// The synonym table: every member of a group leads to the whole group.
pub struct Synonyms {
    groups: Vec<Vec<String>>,
    index: StringHashMap<usize>,
}

impl View for Synonyms {
    type V = Seq<Seq<Seq<char>>>;

    closed spec fn view(&self) -> Seq<Seq<Seq<char>>> {
        group_texts(self.groups@)
    }
}

/// The index leads from each key to the group it belongs to.
spec fn indexes(groups: Seq<Seq<Seq<char>>>, index: Map<Seq<char>, usize>) -> bool {
    forall|key: Seq<char>|
        #![trigger group_of(groups, key)]
        #![trigger index.dom().contains(key)]
        if index.dom().contains(key) {
            index[key] < groups.len() && group_of(groups, key) == Some(groups[index[key] as int])
        } else {
            group_of(groups, key) is None
        }
}

/// Copies a list of strings.
pub fn copied(source: &Vec<String>) -> (copy: Vec<String>)
    ensures
        texts(copy@) == texts(source@),
{
    let mut copy: Vec<String> = Vec::new();
    let mut i: usize = 0;
    while i < source.len()
        invariant
            i <= source@.len(),
            texts(copy@) == texts(source@).take(i as int),
        decreases source@.len() - i,
    {
        let ghost before = copy@;
        copy.push(source[i].clone());
        i += 1;
        assert(texts(copy@) =~= texts(before).push(source@[i - 1]@));
        assert(texts(copy@) =~= texts(source@).take(i as int));
    }
    assert(texts(source@).take(i as int) =~= texts(source@));
    copy
}

impl Synonyms {
    #[verifier::type_invariant]
    spec fn inv(self) -> bool {
        indexes(self@, self.index@)
    }

    /// Builds the table. A member of several groups leads to the last of them.
    pub fn of(groups: Vec<Vec<String>>) -> (table: Self)
        ensures
            table@ == group_texts(groups@),
    {
        let mut index: StringHashMap<usize> = StringHashMap::new();
        let mut i: usize = 0;
        while i < groups.len()
            invariant
                i <= groups@.len(),
                indexes(group_texts(groups@).take(i as int), index@),
            decreases groups@.len() - i,
        {
            let ghost done = group_texts(groups@).take(i as int);
            let ghost next = group_texts(groups@).take(i + 1);
            let ghost group = texts(groups@[i as int]@);
            assert(next.last() == group);
            assert(next.drop_last() =~= done);
            let mut j: usize = 0;
            while j < groups[i as usize].len()
                invariant
                    i < groups@.len(),
                    j <= groups@[i as int]@.len(),
                    done == group_texts(groups@).take(i as int),
                    group == texts(groups@[i as int]@),
                    forall|key: Seq<char>|
                        #![trigger group_of(done, key)]
                        #![trigger index@.dom().contains(key)]
                        if exists|k: int| 0 <= k < j && lowered(#[trigger] group[k]) == key {
                            index@.dom().contains(key) && index@[key] == i
                        } else if index@.dom().contains(key) {
                            index@[key] < i && group_of(done, key) == Some(done[index@[key] as int])
                        } else {
                            group_of(done, key) is None
                        },
                decreases groups@[i as int]@.len() - j,
            {
                let key = to_lowered(groups[i][j].as_str());
                assert(group[j as int] == groups@[i as int]@[j as int]@);
                let ghost before = index@;
                index.insert(key, i);
                assert forall|other: Seq<char>|
                    #![trigger group_of(done, other)]
                    #![trigger index@.dom().contains(other)]
                    if exists|k: int| 0 <= k < j + 1 && lowered(#[trigger] group[k]) == other {
                        index@.dom().contains(other) && index@[other] == i
                    } else if index@.dom().contains(other) {
                        index@[other] < i && group_of(done, other) == Some(
                            done[index@[other] as int],
                        )
                    } else {
                        group_of(done, other) is None
                    } by {
                    assert(before.dom().contains(other) || !before.dom().contains(other));
                    if exists|k: int| 0 <= k < j + 1 && lowered(#[trigger] group[k]) == other {
                        let k = choose|k: int|
                            0 <= k < j + 1 && lowered(#[trigger] group[k]) == other;
                        if other != key@ {
                            assert(0 <= k < j && lowered(group[k]) == other);
                        }
                    } else {
                        assert(lowered(group[j as int]) == key@);
                        assert(other != key@);
                    }
                }
                j += 1;
            }
            assert forall|key: Seq<char>|
                #![trigger group_of(next, key)]
                #![trigger index@.dom().contains(key)]
                if index@.dom().contains(key) {
                    index@[key] < next.len() && group_of(next, key) == Some(
                        next[index@[key] as int],
                    )
                } else {
                    group_of(next, key) is None
                } by {
                if holds_key(group, key) {
                    let k = choose|k: int|
                        0 <= k < group.len() && lowered(#[trigger] group[k]) == key;
                    assert(0 <= k < j && lowered(group[k]) == key);
                } else if exists|k: int| 0 <= k < j && lowered(#[trigger] group[k]) == key {
                    assert(false);
                }
            }
            i += 1;
        }
        assert(group_texts(groups@).take(i as int) =~= group_texts(groups@));
        Synonyms { groups, index }
    }
}

/// A term with its synonyms: the whole group it belongs to, otherwise the
/// term alone. ASCII letters are compared without regard to case.
pub fn lookup(table: &Synonyms, term: &str) -> (variants: Vec<String>)
    ensures
        texts(variants@) == expansion(table@, term@),
{
    proof {
        use_type_invariant(table);
    }
    let key = to_lowered(term);
    match table.index.get(key.as_str()) {
        Some(i) => {
            assert(table@[*i as int] == texts(table.groups@[*i as int]@));
            copied(&table.groups[*i])
        },
        None => {
            let mut variants: Vec<String> = Vec::new();
            variants.push(term.to_owned());
            assert(texts(variants@) =~= seq![term@]);
            variants
        },
    }
}

/// A word for segmentation that the user added.
#[derive(Debug, PartialEq, Eq)]
pub struct UserWord {
    pub word: String,
    /// `None` lets the segmenter work out a frequency.
    pub freq: Option<usize>,
    pub tag: Option<String>,
}

/// What segmentation reads of user words: each word with its frequency.
pub open spec fn weighted(words: Seq<UserWord>) -> Seq<(Seq<char>, Option<usize>)> {
    words.map_values(|w: UserWord| (w.word@, w.freq))
}

/// A segmenter can take in a word among any others of this kind: it is not too
/// long, nor its frequency too high.
pub open spec fn takable(word: (Seq<char>, Option<usize>)) -> bool {
    &&& word.0.len() <= MAX_TERM_CHARS
    &&& word.1 is Some ==> word.1->0 <= MAX_FREQUENCY
}

/// The highest frequency that is given to one of the words, or that one which all
/// of them could have, where that is higher.
pub open spec fn highest(words: Seq<(Seq<char>, Option<usize>)>) -> int
    decreases words.len(),
{
    if words.len() == 0 {
        MAX_FREQUENCY as int
    } else {
        let before = highest(words.drop_last());
        match words.last().1 {
            Some(freq) => if freq > before {
                freq as int
            } else {
                before
            },
            None => before,
        }
    }
}

/// The frequencies of the words together, with one for each word that is given
/// none.
pub open spec fn summed(words: Seq<(Seq<char>, Option<usize>)>, other: int) -> int
    decreases words.len(),
{
    if words.len() == 0 {
        0
    } else {
        summed(words.drop_last(), other) + match words.last().1 {
            Some(freq) => freq as int,
            None => other,
        }
    }
}

/// A segmenter can take in these words: they are few and short enough to find
/// room, and the sum of all frequencies stays in range. What the segmenter works
/// out for a word without a frequency is hardly more than the highest one.
pub open spec fn loadable(words: Seq<(Seq<char>, Option<usize>)>) -> bool {
    &&& words.len() <= MAX_ENTRIES
    &&& forall|i: int| 0 <= i < words.len() ==> (#[trigger] words[i]).0.len() <= MAX_TERM_CHARS
    &&& summed(words, highest(words)) <= MAX_FREQUENCY_SUM
}

proof fn lemma_highest(words: Seq<(Seq<char>, Option<usize>)>)
    ensures
        MAX_FREQUENCY <= highest(words),
    decreases words.len(),
{
    if words.len() > 0 {
        lemma_highest(words.drop_last());
    }
}

/// Fewer words come to less.
proof fn lemma_first_words(words: Seq<(Seq<char>, Option<usize>)>, n: int, other: int, more: int)
    requires
        0 <= n <= words.len(),
        0 <= other <= more,
    ensures
        highest(words.take(n)) <= highest(words),
        0 <= summed(words.take(n), other) <= summed(words, more),
    decreases words.len(), n,
{
    if n < words.len() {
        lemma_first_words(words.drop_last(), n, other, more);
        assert(words.drop_last().take(n) =~= words.take(n));
    } else {
        assert(words.take(n) =~= words);
        if n > 0 {
            let last = words.len() - 1;
            lemma_first_words(words.drop_last(), last, other, more);
            assert(words.drop_last().take(last) =~= words.drop_last());
        }
    }
}

/// Words that are each short and rare enough can be taken in together.
pub proof fn law_takable_words_are_loadable(words: Seq<(Seq<char>, Option<usize>)>)
    requires
        words.len() <= MAX_ENTRIES,
        forall|i: int| 0 <= i < words.len() ==> takable(#[trigger] words[i]),
    ensures
        loadable(words),
{
    lemma_takable_sum(words);
    assert(words.len() * MAX_FREQUENCY <= 10_000 * MAX_FREQUENCY) by (nonlinear_arith)
        requires
            words.len() <= 10_000,
            MAX_FREQUENCY >= 0,
    ;
}

proof fn lemma_takable_sum(words: Seq<(Seq<char>, Option<usize>)>)
    requires
        forall|i: int| 0 <= i < words.len() ==> takable(#[trigger] words[i]),
    ensures
        highest(words) == MAX_FREQUENCY,
        summed(words, MAX_FREQUENCY as int) <= words.len() * MAX_FREQUENCY,
    decreases words.len(),
{
    if words.len() > 0 {
        let init = words.drop_last();
        assert forall|i: int| 0 <= i < init.len() implies takable(#[trigger] init[i]) by {
            assert(init[i] == words[i]);
        }
        lemma_takable_sum(init);
        assert(takable(words[words.len() - 1]));
        assert(words.len() * MAX_FREQUENCY == init.len() * MAX_FREQUENCY + MAX_FREQUENCY)
            by (nonlinear_arith)
            requires
                words.len() == init.len() + 1,
        ;
    }
}

#[verifier::external_type_specification]
#[verifier::external_body]
pub struct ExJieba(Jieba);

/// The words that were added to the built-in dictionary of a segmenter, in
/// order, each with the frequency it was given.
pub uninterp spec fn added_words(jieba: Jieba) -> Seq<(Seq<char>, Option<usize>)>;

/// How `Jieba::cut` without the hidden Markov model splits a sentence when
/// these words were added to the built-in dictionary. It weighs words by
/// logarithms, whose last bit the standard library leaves to the platform, so the
/// name stands for what it does in one build of the program.
pub uninterp spec fn cut_words(
    words: Seq<(Seq<char>, Option<usize>)>,
    sentence: Seq<char>,
) -> Seq<Seq<char>>;

/// The characters of the parts, one part behind the other.
pub open spec fn chained(parts: Seq<Seq<char>>) -> Seq<char>
    decreases parts.len(),
{
    if parts.len() == 0 {
        Seq::empty()
    } else {
        chained(parts.drop_last()) + parts.last()
    }
}

/// `Jieba::new`: the built-in dictionary, with nothing added.
pub assume_specification[ Jieba::new ]() -> (jieba: Jieba)
    ensures
        added_words(jieba) == Seq::<(Seq<char>, Option<usize>)>::empty(),
;

/// `Jieba::add_word`: a word that is not empty is added behind the others.
/// There is room for a limited number of beginnings of words, and the
/// frequencies of all words are summed without a check, so the words have to
/// keep to limits; a word without a frequency is given hardly more than the
/// highest of those that are in use. The tag plays no part in cutting, and
/// nothing is said of the frequency that is returned.
pub assume_specification[ Jieba::add_word ](
    jieba: &mut Jieba,
    word: &str,
    freq: Option<usize>,
    tag: Option<&str>,
) -> (used: usize)
    requires
        loadable(added_words(*old(jieba)).push((word@, freq))),
    ensures
        added_words(*final(jieba)) == if word@.len() == 0 {
            added_words(*old(jieba))
        } else {
            added_words(*old(jieba)).push((word@, freq))
        },
;

/// `Jieba::cut` without the hidden Markov model. The words it returns are
/// parts of the sentence that follow each other without a gap, none of them
/// empty; which parts they are depends on the dictionary and the sentence
/// alone, as long as `f64::ln` and `f64::exp` give the same result for the same
/// argument. Positions in the sentence are kept in 32 bits.
#[verifier::external_body]
fn cut(jieba: &Jieba, sentence: &str) -> (words: Vec<String>)
    requires
        byte_len(sentence@) <= u32::MAX,
    ensures
        texts(words@) == cut_words(added_words(*jieba), sentence@),
        chained(texts(words@)) == sentence@,
        forall|i: int| 0 <= i < words@.len() ==> (#[trigger] words@[i])@.len() > 0,
{
    jieba.cut(sentence, false).into_iter().map(|token| token.word.to_owned()).collect()
}

/// Splits Chinese text into words with the built-in dictionary and the user's
/// own words.
pub struct Segmenter {
    jieba: Jieba,
}

impl View for Segmenter {
    type V = Seq<(Seq<char>, Option<usize>)>;

    closed spec fn view(&self) -> Seq<(Seq<char>, Option<usize>)> {
        added_words(self.jieba)
    }
}

/// The words without those that are empty.
pub open spec fn spelled(words: Seq<(Seq<char>, Option<usize>)>) -> Seq<
    (Seq<char>, Option<usize>),
> {
    words.filter(|w: (Seq<char>, Option<usize>)| w.0.len() > 0)
}

/// Whether a segmenter can take in a word among any others that it can take in.
pub fn can_take(word: &UserWord) -> (r: bool)
    ensures
        r == takable((word.word@, word.freq)),
{
    if chars_of(word.word.as_str()).len() > MAX_TERM_CHARS {
        return false;
    }
    match word.freq {
        Some(freq) => freq <= MAX_FREQUENCY,
        None => true,
    }
}

/// Whether a segmenter can take in these words.
pub fn can_load(words: &Vec<UserWord>) -> (r: bool)
    ensures
        r == loadable(weighted(words@)),
{
    if words.len() > MAX_ENTRIES {
        return false;
    }
    let ghost all = weighted(words@);
    let mut other: usize = MAX_FREQUENCY;
    let mut i: usize = 0;
    assert(all.take(0) =~= Seq::empty());
    while i < words.len()
        invariant
            i <= words@.len() <= MAX_ENTRIES,
            all == weighted(words@),
            other == highest(all.take(i as int)),
            forall|k: int| 0 <= k < i ==> (#[trigger] all[k]).0.len() <= MAX_TERM_CHARS,
        decreases words@.len() - i,
    {
        assert(all[i as int] == (words@[i as int].word@, words@[i as int].freq));
        assert(all.take(i + 1).drop_last() =~= all.take(i as int));
        assert(all.take(i + 1).last() == all[i as int]);
        if chars_of(words[i].word.as_str()).len() > MAX_TERM_CHARS {
            return false;
        }
        if let Some(freq) = words[i].freq {
            if freq > other {
                other = freq;
            }
        }
        i += 1;
    }
    assert(all.take(i as int) =~= all);
    let mut sum: usize = 0;
    let mut j: usize = 0;
    while j < words.len()
        invariant
            j <= words@.len(),
            all == weighted(words@),
            other == highest(all),
            sum == summed(all.take(j as int), other as int),
            sum <= MAX_FREQUENCY_SUM,
        decreases words@.len() - j,
    {
        assert(all[j as int] == (words@[j as int].word@, words@[j as int].freq));
        assert(all.take(j + 1).drop_last() =~= all.take(j as int));
        assert(all.take(j + 1).last() == all[j as int]);
        let freq = match words[j].freq {
            Some(freq) => freq,
            None => other,
        };
        if freq > MAX_FREQUENCY_SUM - sum {
            proof {
                lemma_first_words(all, j + 1, other as int, other as int);
            }
            return false;
        }
        sum += freq;
        j += 1;
    }
    assert(all.take(j as int) =~= all);
    true
}

impl Segmenter {
    /// The built-in dictionary with the given words added to it.
    pub fn build(words: &Vec<UserWord>) -> (segmenter: Self)
        requires
            loadable(weighted(words@)),
        ensures
            segmenter@ == spelled(weighted(words@)),
    {
        let mut jieba = Jieba::new();
        let ghost all = weighted(words@);
        let mut i: usize = 0;
        assert(spelled(all.take(0)) =~= Seq::empty()) by {
            reveal(Seq::filter);
        }
        while i < words.len()
            invariant
                i <= words@.len(),
                all == weighted(words@),
                loadable(all),
                added_words(jieba) == spelled(all.take(i as int)),
            decreases words@.len() - i,
        {
            let word = &words[i];
            let ghost before = spelled(all.take(i as int));
            proof {
                assert(all.take(i + 1).drop_last() =~= all.take(i as int));
                assert(all[i as int] == (word.word@, word.freq));
                assert(spelled(all.take(i + 1)) == if word.word@.len() > 0 {
                    before.push(all[i as int])
                } else {
                    before
                }) by {
                    reveal(Seq::filter);
                }
                lemma_spelled_loads(all, i as int);
            }
            match &word.tag {
                Some(tag) => {
                    jieba.add_word(word.word.as_str(), word.freq, Some(tag.as_str()));
                },
                None => {
                    jieba.add_word(word.word.as_str(), word.freq, None);
                },
            }
            i += 1;
        }
        assert(all.take(i as int) =~= all);
        Segmenter { jieba }
    }
}

/// Words without the empty ones come to no more.
proof fn lemma_spelled(words: Seq<(Seq<char>, Option<usize>)>, other: int)
    requires
        0 <= other,
    ensures
        spelled(words).len() <= words.len(),
        highest(spelled(words)) <= highest(words),
        summed(spelled(words), other) <= summed(words, other),
        forall|k: int| 0 <= k < spelled(words).len() ==> words.contains(#[trigger] spelled(words)[k]),
    decreases words.len(),
{
    reveal(Seq::filter);
    if words.len() > 0 {
        let before = spelled(words.drop_last());
        lemma_spelled(words.drop_last(), other);
        if words.last().0.len() > 0 {
            assert(spelled(words) == before.push(words.last()));
            assert(before.push(words.last()).drop_last() =~= before);
        } else {
            assert(spelled(words) == before);
        }
        assert forall|k: int| 0 <= k < spelled(words).len() implies words.contains(
            #[trigger] spelled(words)[k],
        ) by {
            if k < spelled(words.drop_last()).len() {
                let w = spelled(words.drop_last())[k];
                assert(words.drop_last().contains(w));
                let j = choose|j: int| 0 <= j < words.len() - 1 && words.drop_last()[j] == w;
                assert(words[j] == w);
            } else {
                assert(words[words.len() - 1] == spelled(words)[k]);
            }
        }
    }
}

/// The next of the words can be added to those before it that are not empty.
proof fn lemma_spelled_loads(all: Seq<(Seq<char>, Option<usize>)>, i: int)
    requires
        loadable(all),
        0 <= i < all.len(),
    ensures
        loadable(spelled(all.take(i)).push(all[i])),
{
    let first = all.take(i);
    let before = spelled(first);
    let next = before.push(all[i]);
    let other = highest(next);
    lemma_highest(next);
    lemma_highest(all);
    lemma_spelled(first, other);
    assert(next.drop_last() =~= before);
    assert(all.take(i + 1).drop_last() =~= first);
    assert(all.take(i + 1).last() == all[i]);
    assert(highest(next) <= highest(all.take(i + 1)));
    lemma_first_words(all, i + 1, other, highest(all.take(i + 1)));
    lemma_first_words(all, i + 1, other, highest(all));
    assert(summed(next, other) <= summed(all.take(i + 1), other));
    assert forall|k: int| 0 <= k < next.len() implies (#[trigger] next[k]).0.len()
        <= MAX_TERM_CHARS by {
        if k < before.len() {
            assert(first.contains(before[k]));
            let j = choose|j: int| 0 <= j < i && first[j] == before[k];
            assert(all[j] == before[k]);
        }
    }
}

/// The parts that the index makes a token of.
pub open spec fn searchable_parts(parts: Seq<Seq<char>>) -> Seq<Seq<char>>
    decreases parts.len(),
{
    if parts.len() == 0 {
        Seq::empty()
    } else if searchable(parts.last()) {
        searchable_parts(parts.drop_last()).push(parts.last())
    } else {
        searchable_parts(parts.drop_last())
    }
}

/// Keeps the parts that the index makes a token of.
pub fn keep_searchable(parts: &Vec<String>) -> (kept: Vec<String>)
    ensures
        texts(kept@) == searchable_parts(texts(parts@)),
{
    let mut kept: Vec<String> = Vec::new();
    let mut i: usize = 0;
    assert(texts(kept@) =~= Seq::empty());
    while i < parts.len()
        invariant
            i <= parts@.len(),
            texts(kept@) == searchable_parts(texts(parts@).take(i as int)),
        decreases parts@.len() - i,
    {
        proof {
            assert(texts(parts@).take(i + 1).drop_last() =~= texts(parts@).take(i as int));
            assert(texts(parts@).take(i + 1).last() == parts@[i as int]@);
        }
        if has_tokens(parts[i].as_str()) {
            let ghost before = kept@;
            kept.push(parts[i].clone());
            assert(texts(kept@) =~= texts(before).push(parts@[i as int]@));
        }
        i += 1;
    }
    assert(texts(parts@).take(i as int) =~= texts(parts@));
    kept
}

/// Splits a term with the current dictionary and keeps the parts that the
/// index makes a token of.
pub fn cut_loose(segmenter: &Segmenter, term: &str) -> (parts: Vec<String>)
    requires
        byte_len(term@) <= u32::MAX,
    ensures
        texts(parts@) == searchable_parts(cut_words(segmenter@, term@)),
        chained(cut_words(segmenter@, term@)) == term@,
{
    let words = cut(&segmenter.jieba, term);
    keep_searchable(&words)
}

/// The dictionaries that queries are compiled with.
pub struct Dictionary {
    pub synonyms: Synonyms,
    /// `None` where words are never split.
    pub segmenter: Option<Segmenter>,
}

impl Dictionary {
    /// The dictionaries with the user's own words and synonyms.
    pub fn build(words: &Vec<UserWord>, groups: Vec<Vec<String>>) -> (dictionary: Self)
        requires
            loadable(weighted(words@)),
        ensures
            dictionary.synonyms@ == group_texts(groups@),
            dictionary.segmenter is Some,
            dictionary.segmenter->0@ == spelled(weighted(words@)),
    {
        Dictionary { synonyms: Synonyms::of(groups), segmenter: Some(Segmenter::build(words)) }
    }

    /// No synonyms, and words that are never split.
    pub fn empty() -> (dictionary: Self)
        ensures
            dictionary.synonyms@ == Seq::<Seq<Seq<char>>>::empty(),
            dictionary.segmenter is None,
    {
        let groups: Vec<Vec<String>> = Vec::new();
        assert(group_texts(groups@) =~= Seq::empty());
        Dictionary { synonyms: Synonyms::of(groups), segmenter: None }
    }
}

/// A term with its synonyms in the current dictionary.
pub fn expand(dictionary: &Dictionary, term: &str) -> (variants: Vec<String>)
    ensures
        texts(variants@) == expansion(dictionary.synonyms@, term@),
{
    lookup(&dictionary.synonyms, term)
}

/// A problem found while a dictionary was loaded; line 0 stands for none in
/// particular.
#[derive(Debug, PartialEq, Eq)]
pub struct Problem {
    pub line: usize,
    pub message: String,
}

impl View for Problem {
    type V = (int, Seq<char>);

    open spec fn view(&self) -> (int, Seq<char>) {
        (self.line as int, self.message@)
    }
}

/// What a list of problems says.
pub open spec fn problem_views(problems: Seq<Problem>) -> Seq<(int, Seq<char>)> {
    problems.map_values(|p: Problem| p@)
}

impl Problem {
    /// The problem as it is shown.
    pub fn text(&self) -> (s: String)
        ensures
            s@ == if self.line == 0 {
                self.message@
            } else {
                "第 "@ + decimal(self.line as nat) + " 行:"@ + self.message@
            },
    {
        if self.line == 0 {
            self.message.clone()
        } else {
            let number = decimal_of(self.line as u64);
            let mut s = "第 ".to_owned();
            s.append(number.as_str());
            s.append(" 行:");
            s.append(self.message.as_str());
            s
        }
    }
}

/// What came of loading a dictionary file.
#[derive(Debug, PartialEq, Eq)]
pub struct FileReport {
    pub path: String,
    /// There is no such file, which is no error.
    pub missing: bool,
    /// Entries loaded: words, or groups of synonyms.
    pub loaded: usize,
    /// Words that the entries are made of.
    pub terms: usize,
    /// The first problems.
    pub problems: Vec<Problem>,
    /// There are problems that are not listed.
    pub problems_truncated: bool,
}

/// The problems that a report lists of all that there are.
pub open spec fn listed(all: Seq<(int, Seq<char>)>) -> Seq<(int, Seq<char>)> {
    if all.len() <= MAX_REPORTED_PROBLEMS {
        all
    } else {
        all.take(MAX_REPORTED_PROBLEMS as int)
    }
}

impl FileReport {
    /// The report lists the first of these problems, and tells whether there
    /// are more.
    pub open spec fn reports(&self, all: Seq<(int, Seq<char>)>) -> bool {
        &&& problem_views(self.problems@) == listed(all)
        &&& self.problems_truncated == (all.len() > MAX_REPORTED_PROBLEMS)
    }

    /// A report on a file that nothing is known of yet.
    pub fn new(path: &str) -> (report: Self)
        ensures
            report.path@ == path@,
            !report.missing,
            report.loaded == 0,
            report.terms == 0,
            report.reports(Seq::empty()),
    {
        let report = FileReport {
            path: path.to_owned(),
            missing: false,
            loaded: 0,
            terms: 0,
            problems: Vec::new(),
            problems_truncated: false,
        };
        assert(problem_views(report.problems@) =~= Seq::empty());
        report
    }

    /// Adds a problem; beyond the first ones it is only noted that there are
    /// more.
    pub fn push_problem(&mut self, line: usize, message: String)
        ensures
            final(self).path == old(self).path,
            final(self).missing == old(self).missing,
            final(self).loaded == old(self).loaded,
            final(self).terms == old(self).terms,
            forall|all: Seq<(int, Seq<char>)>|
                #[trigger] old(self).reports(all) ==> final(self).reports(
                    all.push((line as int, message@)),
                ),
    {
        let ghost before = *self;
        if self.problems.len() < MAX_REPORTED_PROBLEMS {
            self.problems.push(Problem { line, message });
            assert(problem_views(self.problems@) =~= problem_views(before.problems@).push(
                (line as int, message@),
            ));
            assert forall|all: Seq<(int, Seq<char>)>| #[trigger] before.reports(
                all,
            ) implies self.reports(all.push((line as int, message@))) by {
                assert(problem_views(before.problems@).len() == before.problems@.len());
                assert(listed(all) =~= all);
            }
        } else {
            self.problems_truncated = true;
            assert forall|all: Seq<(int, Seq<char>)>| #[trigger] before.reports(
                all,
            ) implies self.reports(all.push((line as int, message@))) by {
                assert(problem_views(before.problems@).len() == before.problems@.len());
                assert(listed(all.push((line as int, message@))) =~= listed(all));
            }
        }
    }
}

impl Default for FileReport {
    fn default() -> (report: Self)
        ensures
            report.path@ == Seq::<char>::empty(),
            !report.missing,
            report.loaded == 0,
            report.terms == 0,
            report.reports(Seq::empty()),
    {
        let report = FileReport {
            path: String::new(),
            missing: false,
            loaded: 0,
            terms: 0,
            problems: Vec::new(),
            problems_truncated: false,
        };
        assert(problem_views(report.problems@) =~= Seq::empty());
        report
    }
}

/// What came of loading both dictionary files.
#[derive(Debug, PartialEq, Eq)]
pub struct DictReport {
    pub user_words: FileReport,
    pub synonyms: FileReport,
}

impl Default for DictReport {
    fn default() -> (report: Self)
        ensures
            report.user_words.reports(Seq::empty()),
            report.synonyms.reports(Seq::empty()),
            report.user_words.loaded == 0,
            report.synonyms.loaded == 0,
            report.user_words.terms == 0,
            report.synonyms.terms == 0,
    {
        DictReport { user_words: FileReport::default(), synonyms: FileReport::default() }
    }
}

impl DictReport {
    /// Some problem was found.
    pub open spec fn problematic(&self) -> bool {
        ||| self.user_words.problems_truncated
        ||| self.synonyms.problems_truncated
        ||| self.user_words.problems@.len() > 0
        ||| self.synonyms.problems@.len() > 0
    }

    /// Whether there are problems that the user has to see to.
    pub fn has_problems(&self) -> (r: bool)
        ensures
            r == self.problematic(),
    {
        self.user_words.problems_truncated || self.synonyms.problems_truncated
            || self.user_words.problems.len() > 0 || self.synonyms.problems.len() > 0
    }

    /// Whether neither file has an entry.
    pub fn is_empty(&self) -> (r: bool)
        ensures
            r == (self.user_words.loaded == 0 && self.synonyms.loaded == 0),
    {
        self.user_words.loaded == 0 && self.synonyms.loaded == 0
    }

    /// One line about both files.
    pub fn summary(&self) -> (s: String)
        ensures
            s@ == "用户词 "@ + decimal(self.user_words.loaded as nat) + " 条;同义词 "@ + decimal(
                self.synonyms.loaded as nat,
            ) + " 组 / "@ + decimal(self.synonyms.terms as nat) + " 词"@ + (if self.user_words.loaded
                == 0 && self.synonyms.loaded == 0 {
                "(未配置词典)"@
            } else {
                ""@
            }) + (if self.problematic() {
                ";有格式问题"@
            } else {
                ""@
            }),
    {
        let words = decimal_of(self.user_words.loaded as u64);
        let groups = decimal_of(self.synonyms.loaded as u64);
        let terms = decimal_of(self.synonyms.terms as u64);
        let mut s = "用户词 ".to_owned();
        s.append(words.as_str());
        s.append(" 条;同义词 ");
        s.append(groups.as_str());
        s.append(" 组 / ");
        s.append(terms.as_str());
        s.append(" 词");
        s.append(
            if self.is_empty() {
                "(未配置词典)"
            } else {
                ""
            },
        );
        s.append(
            if self.has_problems() {
                ";有格式问题"
            } else {
                ""
            },
        );
        s
    }
}

/// The file of the words for segmentation in the data directory.
pub fn user_words_path(data_dir: &str) -> (path: String)
    ensures
        joins_path(data_dir@, USER_WORDS_FILE@, path@),
{
    proof {
        reveal_strlit("user_dict.txt");
    }
    join_path(data_dir, USER_WORDS_FILE)
}

/// The file of the synonyms in the data directory.
pub fn synonyms_path(data_dir: &str) -> (path: String)
    ensures
        joins_path(data_dir@, SYNONYMS_FILE@, path@),
{
    proof {
        reveal_strlit("synonyms.txt");
    }
    join_path(data_dir, SYNONYMS_FILE)
}

/// What a new dictionary file starts with.
pub fn template_for(file_name: &str) -> (s: &'static str)
    ensures
        s@ == if file_name@ == SYNONYMS_FILE@ {
            SYNONYMS_TEMPLATE@
        } else {
            USER_WORDS_TEMPLATE@
        },
{
    if same(file_name, SYNONYMS_FILE) {
        SYNONYMS_TEMPLATE
    } else {
        USER_WORDS_TEMPLATE
    }
}

/// The lines from the `i`-th character on, the first of them with the number
/// `n`, without white space at their ends, as far as they are neither empty
/// nor start with `#`.
pub open spec fn entries_from(s: Seq<char>, i: int, n: int) -> Seq<(int, Seq<char>)>
    decreases s.len() + 1 - i,
    via entries_from_decreases
{
    if i < 0 || i >= s.len() {
        Seq::empty()
    } else {
        let end = line_end(s, i);
        let line = trimmed(s.subrange(i, end));
        let rest = entries_from(s, end + 1, n + 1);
        if line.len() > 0 && line[0] != '#' {
            seq![(n, line)] + rest
        } else {
            rest
        }
    }
}

#[via_fn]
proof fn entries_from_decreases(s: Seq<char>, i: int, n: int) {
    if 0 <= i < s.len() {
        lemma_line_end(s, i);
    }
}

/// The entries of a dictionary file with their line numbers.
pub open spec fn entry_lines(s: Seq<char>) -> Seq<(int, Seq<char>)> {
    entries_from(s, 0, 1)
}

/// Numbered lines without the representation.
pub open spec fn entry_views(v: Seq<(usize, String)>) -> Seq<(int, Seq<char>)> {
    v.map_values(|e: (usize, String)| (e.0 as int, e.1@))
}

/// The entries of a dictionary file with their line numbers: lines that are
/// neither empty nor start with `#`, without white space at their ends.
pub fn entries(text: &str) -> (r: Vec<(usize, String)>)
    ensures
        entry_views(r@) == entry_lines(text@),
{
    let chars = chars_of(text);
    let ghost s = text@;
    let total = chars.len();
    let mut r: Vec<(usize, String)> = Vec::new();
    let mut i: usize = 0;
    let mut n: usize = 0;
    assert(entry_views(r@) + entry_lines(s) =~= entry_lines(s));
    while i < total
        invariant
            s == chars@,
            total == s.len(),
            n <= i <= total,
            entry_views(r@) + entries_from(s, i as int, n + 1) == entry_lines(s),
        decreases total - i,
    {
        let start = i;
        while i < total && chars[i] != '\n'
            invariant
                s == chars@,
                total == s.len(),
                start <= i <= total,
                line_end(s, start as int) == line_end(s, i as int),
            decreases total - i,
        {
            i += 1;
        }
        let line = trim_chars(&part_of(&chars, start, i));
        let ghost rest = entries_from(s, i + 1, n + 2);
        let ghost before = entry_views(r@);
        n += 1;
        if line.len() > 0 && line[0] != '#' {
            let kept = string_of(&line, 0, line.len());
            assert(line@.subrange(0, line@.len() as int) =~= line@);
            r.push((n, kept));
            assert(entry_views(r@) =~= before.push((n as int, line@)));
            assert(before + (seq![(n as int, line@)] + rest) =~= before.push((n as int, line@))
                + rest);
        }
        if i < total {
            i += 1;
        }
    }
    assert(entry_views(r@) + Seq::<(int, Seq<char>)>::empty() =~= entry_views(r@));
    r
}

/// What is wrong with a word of a dictionary.
pub open spec fn word_problem(term: Seq<char>) -> Option<Seq<char>> {
    if term.len() > MAX_TERM_CHARS {
        Some("词条超过 64 字上限"@)
    } else if term.contains('*') || term.contains('"') {
        Some("词条不能包含 * 或 \""@)
    } else if !searchable(term) {
        Some("不含任何可索引字符"@)
    } else {
        None
    }
}

/// What is wrong with a word of a dictionary: one that is too long, that a
/// query could not hold, or that the index makes no token of.
pub fn term_problem(term: &str) -> (r: Option<String>)
    ensures
        option_text(r) == word_problem(term@),
{
    let chars = chars_of(term);
    if chars.len() > MAX_TERM_CHARS {
        return Some("词条超过 64 字上限".to_owned());
    }
    if holds_char(&chars, '*') || holds_char(&chars, '"') {
        return Some("词条不能包含 * 或 \"".to_owned());
    }
    if !has_tokens(term) {
        return Some("不含任何可索引字符".to_owned());
    }
    None
}

/// What a user word says: the word, its frequency and its tag.
pub open spec fn word_view(w: UserWord) -> (Seq<char>, Option<usize>, Option<Seq<char>>) {
    (w.word@, w.freq, option_text(w.tag))
}

/// What a list of user words says.
pub open spec fn word_views(words: Seq<UserWord>) -> Seq<
    (Seq<char>, Option<usize>, Option<Seq<char>>),
> {
    words.map_values(|w: UserWord| word_view(w))
}

/// A user word from the fields of a line, or what is wrong with them.
pub open spec fn read_word(fields: Seq<Seq<char>>) -> Result<
    (Seq<char>, Option<usize>, Option<Seq<char>>),
    Seq<char>,
> {
    let tag = if fields.len() > 2 {
        Some(fields[2])
    } else {
        None
    };
    match word_problem(fields[0]) {
        Some(message) => Err(message),
        None => if fields.len() < 2 {
            Ok((fields[0], None, tag))
        } else {
            match number(fields[1]) {
                Some(n) => if n == 0 {
                    Err("词频必须为正整数"@)
                } else if n <= usize::MAX {
                    Ok((fields[0], Some(n as usize), tag))
                } else {
                    Err("词频「"@ + fields[1] + "」不是正整数"@)
                },
                None => Err("词频「"@ + fields[1] + "」不是正整数"@),
            }
        },
    }
}

/// How far the reading of user words has come.
pub struct WordReading {
    pub words: Seq<(Seq<char>, Option<usize>, Option<Seq<char>>)>,
    pub problems: Seq<(int, Seq<char>)>,
    /// The limit was reached.
    pub full: bool,
}

/// One more line of user words.
pub open spec fn read_word_line(r: WordReading, entry: (int, Seq<char>)) -> WordReading {
    if r.full {
        r
    } else if r.words.len() >= MAX_ENTRIES {
        WordReading {
            problems: r.problems.push((entry.0, "已达 10000 条上限,其余忽略"@)),
            full: true,
            ..r
        }
    } else {
        match read_word(words(entry.1)) {
            Err(message) => WordReading { problems: r.problems.push((entry.0, message)), ..r },
            Ok(word) => WordReading { words: r.words.push(word), ..r },
        }
    }
}

/// The user words of these lines.
pub open spec fn read_words(lines: Seq<(int, Seq<char>)>) -> WordReading
    decreases lines.len(),
{
    if lines.len() == 0 {
        WordReading { words: Seq::empty(), problems: Seq::empty(), full: false }
    } else {
        read_word_line(read_words(lines.drop_last()), lines.last())
    }
}

proof fn lemma_words_full(lines: Seq<(int, Seq<char>)>, n: int)
    requires
        0 <= n <= lines.len(),
        read_words(lines.take(n)).full,
    ensures
        read_words(lines) == read_words(lines.take(n)),
    decreases lines.len() - n,
{
    if n < lines.len() {
        assert(lines.take(n + 1).drop_last() =~= lines.take(n));
        lemma_words_full(lines, n + 1);
    } else {
        assert(lines.take(n) =~= lines);
    }
}

/// Every entry of a dictionary file has a word.
proof fn lemma_entries_have_words(s: Seq<char>, i: int, n: int)
    requires
        0 <= i,
    ensures
        forall|k: int|
            0 <= k < entries_from(s, i, n).len() ==> words(
                (#[trigger] entries_from(s, i, n)[k]).1,
            ).len() > 0,
    decreases s.len() + 1 - i,
{
    if i < s.len() {
        lemma_line_end(s, i);
        let end = line_end(s, i);
        let part = s.subrange(i, end);
        let line = trimmed(part);
        lemma_entries_have_words(s, end + 1, n + 1);
        let rest = entries_from(s, end + 1, n + 1);
        if line.len() > 0 && line[0] != '#' {
            lemma_trimmed_start(part);
            lemma_first_word(line);
            let all = entries_from(s, i, n);
            assert(all == seq![(n, line)] + rest);
            assert forall|k: int| 0 <= k < all.len() implies words(
                (#[trigger] all[k]).1,
            ).len() > 0 by {
                if k > 0 {
                    assert(all[k] == rest[k - 1]);
                }
            }
        }
    }
}

fn word_of(fields: &Vec<String>) -> (r: Result<UserWord, String>)
    requires
        fields@.len() > 0,
    ensures
        (match r {
            Ok(word) => Ok(word_view(word)),
            Err(message) => Err(message@),
        }) == read_word(texts(fields@)),
{
    let ghost all = texts(fields@);
    assert(all[0] == fields@[0]@);
    assert(all.len() == fields@.len());
    if let Some(message) = term_problem(fields[0].as_str()) {
        return Err(message);
    }
    let tag = if fields.len() > 2 {
        assert(all[2] == fields@[2]@);
        Some(fields[2].clone())
    } else {
        None
    };
    if fields.len() < 2 {
        return Ok(UserWord { word: fields[0].clone(), freq: None, tag });
    }
    assert(all[1] == fields@[1]@);
    match parse_number(fields[1].as_str()) {
        Some(n) => {
            if n == 0 {
                return Err("词频必须为正整数".to_owned());
            }
            if n <= usize::MAX as u64 {
                return Ok(UserWord { word: fields[0].clone(), freq: Some(n as usize), tag });
            }
        },
        None => {},
    }
    let mut message = "词频「".to_owned();
    message.append(fields[1].as_str());
    message.append("」不是正整数");
    Err(message)
}

/// Reads words for segmentation: on each line a word, which a frequency and a
/// tag may follow. Lines that cannot be read are reported and passed over.
pub fn parse_user_words(text: &str, path: &str) -> (r: (Vec<UserWord>, FileReport))
    ensures
        ({
            let read = read_words(entry_lines(text@));
            &&& word_views(r.0@) == read.words
            &&& r.1.path@ == path@
            &&& !r.1.missing
            &&& r.1.loaded == read.words.len()
            &&& r.1.terms == read.words.len()
            &&& r.1.reports(read.problems)
        }),
{
    let lines = entries(text);
    let ghost all = entry_lines(text@);
    let mut report = FileReport::new(path);
    let mut found: Vec<UserWord> = Vec::new();
    let mut i: usize = 0;
    proof {
        lemma_entries_have_words(text@, 0, 1);
        assert(word_views(found@) =~= Seq::empty());
        assert(all.take(0) =~= Seq::empty());
    }
    while i < lines.len()
        invariant
            i <= lines@.len(),
            all == entry_views(lines@),
            all == entry_lines(text@),
            forall|k: int| 0 <= k < all.len() ==> words((#[trigger] all[k]).1).len() > 0,
            word_views(found@) == read_words(all.take(i as int)).words,
            !read_words(all.take(i as int)).full,
            report.reports(read_words(all.take(i as int)).problems),
            report.path@ == path@,
            !report.missing,
        decreases lines@.len() - i,
    {
        let ghost before = read_words(all.take(i as int));
        let ghost entry = all[i as int];
        proof {
            assert(entry == (lines@[i as int].0 as int, lines@[i as int].1@));
            assert(all.take(i + 1).drop_last() =~= all.take(i as int));
            assert(all.take(i + 1).last() == entry);
            assert(words(entry.1).len() > 0);
            assert(before.words.len() == found@.len());
        }
        let line = lines[i].0;
        if found.len() >= MAX_ENTRIES {
            report.push_problem(line, "已达 10000 条上限,其余忽略".to_owned());
            report.loaded = found.len();
            report.terms = found.len();
            proof {
                lemma_words_full(all, i + 1);
            }
            return (found, report);
        }
        let fields = split_words(lines[i].1.as_str());
        match word_of(&fields) {
            Err(message) => {
                report.push_problem(line, message);
            },
            Ok(word) => {
                let ghost list = word_views(found@);
                found.push(word);
                assert(word_views(found@) =~= list.push(word_view(word)));
            },
        }
        i += 1;
    }
    assert(all.take(i as int) =~= all);
    assert(word_views(found@).len() == found@.len());
    report.loaded = found.len();
    report.terms = found.len();
    (found, report)
}

/// How far the reading of synonyms has come.
pub struct GroupReading {
    pub groups: Seq<Seq<Seq<char>>>,
    /// The line that each word was found on, by the word in lower case.
    pub owners: Map<Seq<char>, usize>,
    pub terms: int,
    pub problems: Seq<(int, Seq<char>)>,
    /// The limit was reached.
    pub full: bool,
}

/// What is wrong with the first of the words from the `k`-th on that cannot be
/// taken into a group.
pub open spec fn member_problem(
    owners: Map<Seq<char>, usize>,
    members: Seq<Seq<char>>,
    k: int,
) -> Option<Seq<char>>
    decreases members.len() - k,
{
    if k < 0 || k >= members.len() {
        None
    } else {
        let member = members[k];
        let key = lowered(member);
        match word_problem(member) {
            Some(message) => Some("「"@ + member + "」"@ + message),
            None => if owners.dom().contains(key) {
                Some(
                    "「"@ + member + "」已在第 "@ + decimal(owners[key] as nat)
                        + " 行出现过(每个词只能属于一组)"@,
                )
            } else if exists|j: int| 0 <= j < k && lowered(#[trigger] members[j]) == key {
                Some("「"@ + member + "」在同一行里重复出现"@)
            } else {
                member_problem(owners, members, k + 1)
            },
        }
    }
}

/// What is wrong with the words of a line as a group of synonyms.
pub open spec fn group_problem(owners: Map<Seq<char>, usize>, members: Seq<Seq<char>>) -> Option<
    Seq<char>,
> {
    if members.len() < 2 {
        Some("同义词组至少要两个词(组内用空格分隔)"@)
    } else if members.len() > MAX_GROUP_MEMBERS {
        Some("一组最多 32 个词"@)
    } else {
        member_problem(owners, members, 0)
    }
}

/// The owners with the words of a line.
pub open spec fn owned(
    owners: Map<Seq<char>, usize>,
    members: Seq<Seq<char>>,
    line: usize,
) -> Map<Seq<char>, usize>
    decreases members.len(),
{
    if members.len() == 0 {
        owners
    } else {
        owned(owners, members.drop_last(), line).insert(lowered(members.last()), line)
    }
}

/// One more line of synonyms.
pub open spec fn read_group_line(r: GroupReading, entry: (int, Seq<char>)) -> GroupReading {
    let members = words(entry.1);
    if r.full {
        r
    } else {
        match group_problem(r.owners, members) {
            Some(message) => GroupReading { problems: r.problems.push((entry.0, message)), ..r },
            None => if r.terms + members.len() > MAX_ENTRIES {
                GroupReading {
                    problems: r.problems.push((entry.0, "已达 10000 词上限,其余忽略"@)),
                    full: true,
                    ..r
                }
            } else {
                GroupReading {
                    groups: r.groups.push(members),
                    owners: owned(r.owners, members, entry.0 as usize),
                    terms: r.terms + members.len(),
                    ..r
                }
            },
        }
    }
}

/// The groups of synonyms of these lines.
pub open spec fn read_groups(lines: Seq<(int, Seq<char>)>) -> GroupReading
    decreases lines.len(),
{
    if lines.len() == 0 {
        GroupReading {
            groups: Seq::empty(),
            owners: Map::empty(),
            terms: 0,
            problems: Seq::empty(),
            full: false,
        }
    } else {
        read_group_line(read_groups(lines.drop_last()), lines.last())
    }
}

proof fn lemma_groups_full(lines: Seq<(int, Seq<char>)>, n: int)
    requires
        0 <= n <= lines.len(),
        read_groups(lines.take(n)).full,
    ensures
        read_groups(lines) == read_groups(lines.take(n)),
    decreases lines.len() - n,
{
    if n < lines.len() {
        assert(lines.take(n + 1).drop_last() =~= lines.take(n));
        lemma_groups_full(lines, n + 1);
    } else {
        assert(lines.take(n) =~= lines);
    }
}

fn named(member: &str, rest: &str) -> (s: String)
    ensures
        s@ == "「"@ + member@ + "」"@ + rest@,
{
    let mut s = "「".to_owned();
    s.append(member);
    s.append("」");
    s.append(rest);
    s
}

fn problem_of_group(owners: &StringHashMap<usize>, members: &Vec<String>) -> (r: Option<String>)
    ensures
        option_text(r) == group_problem(owners@, texts(members@)),
{
    let ghost all = texts(members@);
    assert(all.len() == members@.len());
    if members.len() < 2 {
        return Some("同义词组至少要两个词(组内用空格分隔)".to_owned());
    }
    if members.len() > MAX_GROUP_MEMBERS {
        return Some("一组最多 32 个词".to_owned());
    }
    let mut keys: Vec<String> = Vec::new();
    let mut k: usize = 0;
    while k < members.len()
        invariant
            k <= members@.len(),
            2 <= members@.len() <= MAX_GROUP_MEMBERS,
            all == texts(members@),
            keys@.len() == k,
            forall|j: int| 0 <= j < k ==> (#[trigger] keys@[j])@ == lowered(all[j]),
            member_problem(owners@, all, k as int) == member_problem(owners@, all, 0),
        decreases members@.len() - k,
    {
        let member = members[k].as_str();
        assert(all[k as int] == member@);
        if let Some(message) = term_problem(member) {
            return Some(named(member, message.as_str()));
        }
        let key = to_lowered(member);
        if let Some(line) = owners.get(key.as_str()) {
            let number = decimal_of(*line as u64);
            let mut s = "「".to_owned();
            s.append(member);
            s.append("」已在第 ");
            s.append(number.as_str());
            s.append(" 行出现过(每个词只能属于一组)");
            return Some(s);
        }
        let mut j: usize = 0;
        while j < keys.len()
            invariant
                j <= keys@.len(),
                k < members@.len(),
                2 <= members@.len() <= MAX_GROUP_MEMBERS,
                all == texts(members@),
                keys@.len() == k,
                member@ == all[k as int],
                key@ == lowered(all[k as int]),
                word_problem(all[k as int]) is None,
                !owners@.dom().contains(key@),
                forall|m: int| 0 <= m < k ==> (#[trigger] keys@[m])@ == lowered(all[m]),
                forall|m: int| 0 <= m < j ==> lowered(#[trigger] all[m]) != key@,
                member_problem(owners@, all, k as int) == member_problem(owners@, all, 0),
            decreases keys@.len() - j,
        {
            assert(keys@[j as int]@ == lowered(all[j as int]));
            if same(keys[j].as_str(), key.as_str()) {
                let mut s = "「".to_owned();
                s.append(member);
                s.append("」在同一行里重复出现");
                return Some(s);
            }
            j += 1;
        }
        keys.push(key);
        k += 1;
    }
    None
}

fn claim(owners: &mut StringHashMap<usize>, members: &Vec<String>, line: usize)
    ensures
        final(owners)@ == owned(old(owners)@, texts(members@), line),
{
    let ghost all = texts(members@);
    let mut k: usize = 0;
    while k < members.len()
        invariant
            k <= members@.len(),
            all == texts(members@),
            owners@ == owned(old(owners)@, all.take(k as int), line),
        decreases members@.len() - k,
    {
        proof {
            assert(all.take(k + 1).drop_last() =~= all.take(k as int));
            assert(all.take(k + 1).last() == members@[k as int]@);
        }
        owners.insert(to_lowered(members[k].as_str()), line);
        k += 1;
    }
    assert(all.take(k as int) =~= all);
}

/// Reads groups of synonyms: one on each line, its words separated by white
/// space. A word belongs to one group, so its second appearance is reported;
/// lines that cannot be read are passed over.
pub fn parse_synonyms(text: &str, path: &str) -> (r: (Vec<Vec<String>>, FileReport))
    ensures
        ({
            let read = read_groups(entry_lines(text@));
            &&& group_texts(r.0@) == read.groups
            &&& r.1.path@ == path@
            &&& !r.1.missing
            &&& r.1.loaded == read.groups.len()
            &&& r.1.terms == read.terms
            &&& r.1.reports(read.problems)
        }),
{
    let lines = entries(text);
    let ghost all = entry_lines(text@);
    let mut report = FileReport::new(path);
    let mut groups: Vec<Vec<String>> = Vec::new();
    let mut owners: StringHashMap<usize> = StringHashMap::new();
    let mut terms: usize = 0;
    let mut i: usize = 0;
    proof {
        assert(group_texts(groups@) =~= Seq::empty());
        assert(all.take(0) =~= Seq::empty());
    }
    while i < lines.len()
        invariant
            i <= lines@.len(),
            all == entry_views(lines@),
            all == entry_lines(text@),
            group_texts(groups@) == read_groups(all.take(i as int)).groups,
            owners@ == read_groups(all.take(i as int)).owners,
            terms == read_groups(all.take(i as int)).terms,
            terms <= MAX_ENTRIES,
            !read_groups(all.take(i as int)).full,
            report.reports(read_groups(all.take(i as int)).problems),
            report.path@ == path@,
            !report.missing,
        decreases lines@.len() - i,
    {
        let ghost entry = all[i as int];
        proof {
            assert(entry == (lines@[i as int].0 as int, lines@[i as int].1@));
            assert(all.take(i + 1).drop_last() =~= all.take(i as int));
            assert(all.take(i + 1).last() == entry);
        }
        let line = lines[i].0;
        let members = split_words(lines[i].1.as_str());
        assert(texts(members@).len() == members@.len());
        match problem_of_group(&owners, &members) {
            Some(message) => {
                report.push_problem(line, message);
            },
            None => {
                if members.len() > MAX_ENTRIES - terms {
                    report.push_problem(line, "已达 10000 词上限,其余忽略".to_owned());
                    report.loaded = groups.len();
                    report.terms = terms;
                    proof {
                        lemma_groups_full(all, i + 1);
                        assert(group_texts(groups@).len() == groups@.len());
                    }
                    return (groups, report);
                }
                claim(&mut owners, &members, line);
                terms = terms + members.len();
                let ghost list = group_texts(groups@);
                let ghost added = texts(members@);
                groups.push(members);
                assert(group_texts(groups@) =~= list.push(added));
            },
        }
        i += 1;
    }
    assert(all.take(i as int) =~= all);
    assert(group_texts(groups@).len() == groups@.len());
    report.loaded = groups.len();
    report.terms = terms;
    (groups, report)
}

/// Checks a word before it is added to its file.
pub fn check_user_word(line: &str) -> (r: Result<(), String>)
    ensures
        ({
            let read = read_words(entry_lines(line@));
            &&& r is Ok <==> read.problems.len() == 0 && read.words.len() == 1
            &&& r is Err ==> r->Err_0@ == if read.problems.len() > 0 {
                read.problems[0].1
            } else {
                "请填写一个词条"@
            }
        }),
{
    let (words, report) = parse_user_words(line, USER_WORDS_FILE);
    let ghost all = read_words(entry_lines(line@)).problems;
    proof {
        assert(problem_views(report.problems@).len() == report.problems@.len());
        assert(word_views(words@).len() == words@.len());
    }
    if report.problems.len() > 0 {
        assert(problem_views(report.problems@)[0] == report.problems@[0]@);
        assert(listed(all)[0] == all[0]);
        return Err(report.problems[0].message.clone());
    }
    if words.len() == 1 {
        Ok(())
    } else {
        Err("请填写一个词条".to_owned())
    }
}

/// What is wrong with a line as the only group of synonyms.
pub open spec fn line_problem(line: Seq<char>) -> Option<Seq<char>> {
    let read = read_groups(entry_lines(line));
    if read.problems.len() > 0 {
        Some(read.problems[0].1)
    } else if read.groups.len() == 1 {
        None
    } else {
        Some("同义词组至少要两个词(组内用空格分隔)"@)
    }
}

/// An error as an option.
pub open spec fn error_text(r: Result<(), String>) -> Option<Seq<char>> {
    match r {
        Ok(_) => None,
        Err(message) => Some(message@),
    }
}

/// Checks a group of synonyms before it is added to its file.
pub fn check_synonym_group(line: &str) -> (r: Result<(), String>)
    ensures
        error_text(r) == line_problem(line@),
{
    let (groups, report) = parse_synonyms(line, SYNONYMS_FILE);
    let ghost all = read_groups(entry_lines(line@)).problems;
    proof {
        assert(problem_views(report.problems@).len() == report.problems@.len());
        assert(group_texts(groups@).len() == groups@.len());
    }
    if report.problems.len() > 0 {
        assert(problem_views(report.problems@)[0] == report.problems@[0]@);
        assert(listed(all)[0] == all[0]);
        return Err(report.problems[0].message.clone());
    }
    if groups.len() == 1 {
        Ok(())
    } else {
        Err("同义词组至少要两个词(组内用空格分隔)".to_owned())
    }
}

/// What reading a dictionary file came to.
#[derive(Debug)]
pub enum Source {
    /// There is no such file.
    Missing,
    /// The file could not be read, with the reason.
    Failed(String),
    Bytes(Vec<u8>),
}

/// The text of a dictionary file without a byte order mark in front.
pub open spec fn file_text(bytes: Seq<u8>) -> Seq<char> {
    let text = if valid_utf8(bytes) {
        decode_utf8(bytes)
    } else {
        gb18030_text(bytes)
    };
    if text.len() > 0 && text[0] == '\u{feff}' {
        text.drop_first()
    } else {
        text
    }
}

/// The text of a dictionary file: UTF-8 where it is valid, GB18030 otherwise,
/// without a byte order mark in front.
pub fn decode_file(bytes: &Vec<u8>) -> (text: String)
    requires
        decodable(bytes@.len() as int),
    ensures
        text@ == file_text(bytes@),
{
    let text = match decode(bytes.as_slice()) {
        Some(text) => text,
        None => decode_gb18030(bytes.as_slice()),
    };
    let chars = chars_of(text.as_str());
    if chars.len() > 0 && chars[0] == '\u{feff}' {
        assert(text@.subrange(1, text@.len() as int) =~= text@.drop_first());
        string_of(&chars, 1, chars.len())
    } else {
        text
    }
}

/// The source can be decoded.
pub open spec fn readable(source: Source) -> bool {
    source is Bytes ==> decodable(source->Bytes_0@.len() as int)
}

/// The report on a file that was not read.
fn unread_report(source: &Source, path: &str) -> (report: FileReport)
    requires
        !(source is Bytes),
    ensures
        report.path@ == path@,
        report.missing == (source is Missing),
        report.loaded == 0,
        report.terms == 0,
        report.reports(unread_problems(*source)),
{
    let mut report = FileReport::new(path);
    match source {
        Source::Missing => {
            report.missing = true;
        },
        Source::Failed(reason) => {
            report.push_problem(0, "读取失败: ".to_owned().concat(reason.as_str()));
            assert(Seq::<(int, Seq<char>)>::empty().push((0, "读取失败: "@ + reason@)) =~= seq![
                (0int, "读取失败: "@ + reason@),
            ]);
        },
        Source::Bytes(_) => {},
    }
    report
}

/// The problems of a file that was not read: none where there is no file.
pub open spec fn unread_problems(source: Source) -> Seq<(int, Seq<char>)> {
    match source {
        Source::Failed(reason) => seq![(0int, "读取失败: "@ + reason@)],
        _ => Seq::empty(),
    }
}

/// Loads words for segmentation.
pub fn load_user_words(source: &Source, path: &str) -> (r: (Vec<UserWord>, FileReport))
    requires
        readable(*source),
    ensures
        r.1.path@ == path@,
        r.1.missing == (source is Missing),
        r.1.loaded == r.0@.len(),
        r.1.terms == r.0@.len(),
        match *source {
            Source::Bytes(bytes) => {
                let read = read_words(entry_lines(file_text(bytes@)));
                word_views(r.0@) == read.words && r.1.reports(read.problems)
            },
            _ => r.0@.len() == 0 && r.1.reports(unread_problems(*source)),
        },
{
    match source {
        Source::Bytes(bytes) => {
            let text = decode_file(bytes);
            let r = parse_user_words(text.as_str(), path);
            assert(word_views(r.0@).len() == r.0@.len());
            r
        },
        _ => (Vec::new(), unread_report(source, path)),
    }
}

/// Loads groups of synonyms.
pub fn load_synonyms(source: &Source, path: &str) -> (r: (Vec<Vec<String>>, FileReport))
    requires
        readable(*source),
    ensures
        r.1.path@ == path@,
        r.1.missing == (source is Missing),
        r.1.loaded == r.0@.len(),
        match *source {
            Source::Bytes(bytes) => {
                let read = read_groups(entry_lines(file_text(bytes@)));
                &&& group_texts(r.0@) == read.groups
                &&& r.1.terms == read.terms
                &&& r.1.reports(read.problems)
            },
            _ => {
                &&& r.0@.len() == 0
                &&& r.1.terms == 0
                &&& r.1.reports(unread_problems(*source))
            },
        },
{
    match source {
        Source::Bytes(bytes) => {
            let text = decode_file(bytes);
            let r = parse_synonyms(text.as_str(), path);
            assert(group_texts(r.0@).len() == r.0@.len());
            r
        },
        _ => (Vec::new(), unread_report(source, path)),
    }
}

/// What was loaded from both dictionary files.
pub struct Loaded {
    pub words: Vec<UserWord>,
    pub groups: Vec<Vec<String>>,
    pub report: DictReport,
}

/// Loads both dictionary files of a data directory. A file that is missing
/// counts as empty.
pub fn load(data_dir: &str, user_words: &Source, synonyms: &Source) -> (r: Loaded)
    requires
        readable(*user_words),
        readable(*synonyms),
    ensures
        joins_path(data_dir@, USER_WORDS_FILE@, r.report.user_words.path@),
        joins_path(data_dir@, SYNONYMS_FILE@, r.report.synonyms.path@),
        r.report.user_words.missing == (user_words is Missing),
        r.report.synonyms.missing == (synonyms is Missing),
        r.report.user_words.loaded == r.words@.len(),
        r.report.user_words.terms == r.words@.len(),
        r.report.synonyms.loaded == r.groups@.len(),
        match *user_words {
            Source::Bytes(bytes) => {
                let read = read_words(entry_lines(file_text(bytes@)));
                word_views(r.words@) == read.words && r.report.user_words.reports(read.problems)
            },
            _ => r.words@.len() == 0 && r.report.user_words.reports(unread_problems(*user_words)),
        },
        match *synonyms {
            Source::Bytes(bytes) => {
                let read = read_groups(entry_lines(file_text(bytes@)));
                &&& group_texts(r.groups@) == read.groups
                &&& r.report.synonyms.terms == read.terms
                &&& r.report.synonyms.reports(read.problems)
            },
            _ => {
                &&& r.groups@.len() == 0
                &&& r.report.synonyms.terms == 0
                &&& r.report.synonyms.reports(unread_problems(*synonyms))
            },
        },
{
    let words_path = user_words_path(data_dir);
    let groups_path = synonyms_path(data_dir);
    let (words, words_report) = load_user_words(user_words, words_path.as_str());
    let (groups, groups_report) = load_synonyms(synonyms, groups_path.as_str());
    Loaded {
        words,
        groups,
        report: DictReport { user_words: words_report, synonyms: groups_report },
    }
}

/// Number of line feeds.
pub open spec fn line_feed_count(s: Seq<char>) -> int
    decreases s.len(),
{
    if s.len() == 0 {
        0
    } else {
        line_feed_count(s.drop_last()) + if s.last() == '\n' {
            1int
        } else {
            0
        }
    }
}

/// The text with a line feed at its end, unless it is empty.
pub open spec fn closed_lines(s: Seq<char>) -> Seq<char> {
    if s.len() > 0 && s.last() != '\n' {
        s.push('\n')
    } else {
        s
    }
}

/// The message of the first problem at the given line or behind it.
pub open spec fn problem_from(problems: Seq<(int, Seq<char>)>, line: int) -> Option<Seq<char>>
    decreases problems.len(),
{
    if problems.len() == 0 {
        None
    } else if problems[0].0 >= line {
        Some(problems[0].1)
    } else {
        problem_from(problems.drop_first(), line)
    }
}

/// What is wrong with a group of synonyms as a new line of a file.
pub open spec fn addition_problem(text: Seq<char>, line: Seq<char>) -> Option<Seq<char>> {
    match line_problem(line) {
        Some(message) => Some(message),
        None => {
            let kept = closed_lines(text);
            let before = read_groups(entry_lines(text));
            let after = read_groups(entry_lines(kept + trimmed(line)));
            if after.groups.len() == before.groups.len() + 1 {
                None
            } else {
                match problem_from(listed(after.problems), line_feed_count(kept) + 1) {
                    Some(message) => Some(message),
                    None => Some(
                        "新增同义词组未通过校验:词条重复或已达词典容量上限"@,
                    ),
                }
            }
        },
    }
}

fn count_line_feeds(chars: &Vec<char>) -> (n: usize)
    ensures
        n == line_feed_count(chars@),
        n <= chars@.len(),
{
    let mut n: usize = 0;
    let mut i: usize = 0;
    while i < chars.len()
        invariant
            n <= i <= chars@.len(),
            n == line_feed_count(chars@.take(i as int)),
        decreases chars@.len() - i,
    {
        assert(chars@.take(i + 1).drop_last() =~= chars@.take(i as int));
        if chars[i] == '\n' {
            n += 1;
        }
        i += 1;
    }
    assert(chars@.take(i as int) =~= chars@);
    n
}

/// Checks a group of synonyms against the text of the file that it is to be
/// added to.
pub fn check_synonym_group_in_text(text: &str, line: &str) -> (r: Result<(), String>)
    ensures
        error_text(r) == addition_problem(text@, line@),
{
    match check_synonym_group(line) {
        Err(message) => return Err(message),
        Ok(_) => {},
    }
    let (before, _) = parse_synonyms(text, SYNONYMS_FILE);
    let mut kept = text.to_owned();
    let chars = chars_of(text);
    if chars.len() > 0 && chars[chars.len() - 1] != '\n' {
        kept.push('\n');
    }
    let earlier = count_line_feeds(&chars_of(kept.as_str()));
    let added = trim(line);
    kept.append(added.as_str());
    let (after, report) = parse_synonyms(kept.as_str(), SYNONYMS_FILE);
    proof {
        assert(group_texts(before@).len() == before@.len());
        assert(group_texts(after@).len() == after@.len());
    }
    if before.len() < after.len() && after.len() - before.len() == 1 {
        return Ok(());
    }
    let ghost shown = problem_views(report.problems@);
    let mut i: usize = 0;
    assert(shown.skip(0) =~= shown);
    while i < report.problems.len()
        invariant
            i <= report.problems@.len(),
            shown == problem_views(report.problems@),
            problem_from(shown.skip(i as int), earlier + 1) == problem_from(shown, earlier + 1),
            line_problem(line@) is None,
            shown == listed(
                read_groups(entry_lines(closed_lines(text@) + trimmed(line@))).problems,
            ),
            earlier == line_feed_count(closed_lines(text@)),
            read_groups(entry_lines(closed_lines(text@) + trimmed(line@))).groups.len()
                != read_groups(entry_lines(text@)).groups.len() + 1,
        decreases report.problems@.len() - i,
    {
        assert(shown.skip(i as int)[0] == report.problems@[i as int]@);
        assert(shown.skip(i as int).drop_first() =~= shown.skip(i + 1));
        if report.problems[i].line > earlier {
            return Err(report.problems[i].message.clone());
        }
        i += 1;
    }
    Err("新增同义词组未通过校验:词条重复或已达词典容量上限".to_owned())
}

/// Checks a group of synonyms against the file that it is to be added to. A
/// file that is missing counts as empty.
pub fn check_synonym_group_in_file(source: &Source, line: &str) -> (r: Result<(), String>)
    requires
        readable(*source),
    ensures
        match *source {
            Source::Bytes(bytes) => error_text(r) == addition_problem(file_text(bytes@), line@),
            Source::Missing => error_text(r) == addition_problem(Seq::empty(), line@),
            Source::Failed(reason) => error_text(r) == match line_problem(line@) {
                Some(message) => Some(message),
                None => Some("读取词典文件失败: "@ + reason@),
            },
        },
{
    match source {
        Source::Bytes(bytes) => {
            let text = decode_file(bytes);
            check_synonym_group_in_text(text.as_str(), line)
        },
        Source::Missing => {
            let text = String::new();
            check_synonym_group_in_text(text.as_str(), line)
        },
        Source::Failed(reason) => match check_synonym_group(line) {
            Err(message) => Err(message),
            Ok(_) => Err("读取词典文件失败: ".to_owned().concat(reason.as_str())),
        },
    }
}

/// What `encoding_rs::GB18030` encodes a text as, and whether it had to replace
/// characters.
pub uninterp spec fn gb18030_bytes(text: Seq<char>) -> (Seq<u8>, bool);

/// `Encoding::encode` of GB18030: the bytes and whether characters had to be
/// replaced. Both depend on the text alone. Sizes for which no buffer can be
/// computed are left out.
#[verifier::external_body]
fn encode_gb18030(text: &str) -> (r: (Vec<u8>, bool))
    requires
        decodable(byte_len(text@)),
    ensures
        (r.0@, r.1) == gb18030_bytes(text@),
{
    let (bytes, _, replaced) = encoding_rs::GB18030.encode(text);
    (bytes.into_owned(), replaced)
}

/// The bytes of a line in the encoding of a file; `None` where that encoding
/// does not give the line back.
pub open spec fn encoded_line(bytes: Seq<u8>, line: Seq<char>) -> Option<Seq<u8>> {
    if valid_utf8(bytes) {
        Some(encode_utf8(line))
    } else {
        let (encoded, replaced) = gb18030_bytes(line);
        if replaced || gb18030_text(encoded) != line {
            None
        } else {
            Some(encoded)
        }
    }
}

/// The bytes that put an encoded line on a line of its own at the end of a
/// file.
pub open spec fn line_bytes(bytes: Seq<u8>, encoded: Seq<u8>) -> Seq<u8> {
    let end = seq![10u8];
    if bytes.len() == 0 || bytes.last() != 10 {
        end + encoded + end
    } else {
        encoded + end
    }
}

/// The bytes that put an encoded line on a line of its own at the end of a
/// file.
pub fn bytes_of_line(bytes: &Vec<u8>, encoded: &[u8]) -> (r: Vec<u8>)
    ensures
        r@ == line_bytes(bytes@, encoded@),
{
    let mut r: Vec<u8> = Vec::new();
    if bytes.len() == 0 || bytes[bytes.len() - 1] != 10 {
        r.push(10);
    }
    let ghost start = r@;
    let mut i: usize = 0;
    assert(start + encoded@.take(0) =~= start);
    while i < encoded.len()
        invariant
            i <= encoded@.len(),
            r@ == start + encoded@.take(i as int),
        decreases encoded@.len() - i,
    {
        r.push(encoded[i]);
        i += 1;
        assert(r@ =~= start + encoded@.take(i as int));
    }
    r.push(10);
    assert(encoded@.take(i as int) =~= encoded@);
    assert(r@ =~= line_bytes(bytes@, encoded@));
    r
}

/// What has to be written at the end of a GB18030 file to add a line to it,
/// given what the line was encoded as and whether characters were replaced.
pub fn add_encoded(bytes: &Vec<u8>, line: &str, encoded: &Vec<u8>, replaced: bool) -> (r: Result<
    Vec<u8>,
    String,
>)
    requires
        decodable(encoded@.len() as int),
    ensures
        (match r {
            Ok(added) => Ok(added@),
            Err(message) => Err(message@),
        }) == if replaced || gb18030_text(encoded@) != line@ {
            Err("新增词条含有无法用 gb18030 无损编码的字符,请先将词典转为 UTF-8"@)
        } else {
            Ok(line_bytes(bytes@, encoded@))
        },
{
    let back = decode_gb18030(encoded.as_slice());
    if replaced || !same(back.as_str(), line) {
        return Err(
            "新增词条含有无法用 gb18030 无损编码的字符,请先将词典转为 UTF-8".to_owned(),
        );
    }
    Ok(bytes_of_line(bytes, encoded.as_slice()))
}

/// What has to be written at the end of a dictionary file to add a line to it;
/// nothing where the line is blank.
///
/// The line is written in the encoding that the file is read in, on a line of
/// its own. It is refused where that encoding would not give it back. `None`
/// where the encoded line is too large to be decoded again.
pub fn append_line(bytes: &Vec<u8>, line: &str) -> (r: Option<Result<Vec<u8>, String>>)
    requires
        decodable(byte_len(line@)),
    ensures
        ({
            let kept = trimmed(line@);
            let result = match r {
                Some(Ok(added)) => Some(Ok::<Seq<u8>, Seq<char>>(added@)),
                Some(Err(message)) => Some(Err(message@)),
                None => None,
            };
            if kept.len() == 0 {
                result == Some(Ok::<Seq<u8>, Seq<char>>(Seq::empty()))
            } else if valid_utf8(bytes@) || decodable(gb18030_bytes(kept).0.len() as int) {
                result == Some(
                    match encoded_line(bytes@, kept) {
                        Some(encoded) => Ok(line_bytes(bytes@, encoded)),
                        None => Err(
                            "新增词条含有无法用 gb18030 无损编码的字符,请先将词典转为 UTF-8"@,
                        ),
                    },
                )
            } else {
                result is None
            }
        }),
{
    let kept = trim(line);
    proof {
        lemma_trimmed(line@);
        let i = skip_space(line@, 0);
        let j = drop_space(line@, i, line@.len() as int);
        lemma_offset_subrange(line@, i, j, j - i);
        lemma_offset_monotonic(line@, 0, i);
        lemma_offset_monotonic(line@, j, line@.len() as int);
    }
    if kept.as_str().is_empty() {
        let nothing: Vec<u8> = Vec::new();
        assert(nothing@ =~= Seq::empty());
        return Some(Ok(nothing));
    }
    if decode(bytes.as_slice()).is_some() {
        return Some(Ok(bytes_of_line(bytes, kept.as_str().as_bytes())));
    }
    let (encoded, replaced) = encode_gb18030(kept.as_str());
    if encoded.len() > usize::MAX / 16 {
        return None;
    }
    Some(add_encoded(bytes, kept.as_str(), &encoded, replaced))
}

/// A line added to a UTF-8 file is read back behind what the file held, on a
/// line of its own.
pub proof fn law_added_line_is_read_back(bytes: Seq<u8>, line: Seq<char>)
    requires
        valid_utf8(bytes),
    ensures
        ({
            let added = line_bytes(bytes, encode_utf8(line));
            let old_text = decode_utf8(bytes);
            &&& valid_utf8(bytes + added)
            &&& decode_utf8(bytes + added) == (if bytes.len() == 0 || bytes.last() != 10 {
                old_text.push('\n')
            } else {
                old_text
            }) + line.push('\n')
        }),
{
    let old_text = decode_utf8(bytes);
    decode_utf8_encode_utf8(bytes);
    let first = if bytes.len() == 0 || bytes.last() != 10 {
        old_text.push('\n')
    } else {
        old_text
    };
    let feed = seq!['\n'];
    assert(encode_utf8(feed) =~= seq![10u8]) by {
        is_ascii_chars_encode_utf8(feed);
    }
    lemma_encode_concat(old_text, feed);
    lemma_encode_concat(line, feed);
    assert(old_text + feed =~= old_text.push('\n'));
    assert(line + feed =~= line.push('\n'));
    lemma_encode_concat(first, line.push('\n'));
    assert(bytes + line_bytes(bytes, encode_utf8(line)) =~= encode_utf8(first + line.push('\n')));
    encode_utf8_valid_utf8(first + line.push('\n'));
    encode_utf8_decode_utf8(first + line.push('\n'));
}

} // verus!
