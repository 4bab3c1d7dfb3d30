//! The controlled vocabulary of the topics.
//!
//! Free tags scatter what is learned: "KI", "Künstliche Intelligenz" and "AI"
//! would be learned apart. So every tag is brought to a canonical topic, and a
//! tag outside the vocabulary is dropped.

use crate::scan::{ends_are_trimmed, trim, trimmed, trimming_takes_the_ends, CharClass};
use crate::text::{
    alphanumeric, distinct_texts, is_ascii, is_common, is_umlaut, join, joined, lowercase, same, small, views,
    white_space,
};
use vstd::prelude::*;

verus! {

/// The canonical topics. A topic is never renamed: learned weights refer to it.
pub const TOPICS: [&'static str; 24] = [
    "ki",
    "llm",
    "agents",
    "ml-forschung",
    "chips",
    "hardware",
    "software-engineering",
    "programmiersprachen",
    "open-source",
    "cloud",
    "sicherheit",
    "datenschutz",
    "politik-regulierung",
    "big-tech",
    "startups",
    "wirtschaft",
    "robotik",
    "raumfahrt",
    "wissenschaft",
    "energie",
    "medien",
    "gaming",
    "krypto",
    "gesellschaft",
];

/// Common synonyms and their canonical topics, in lower case.
pub const ALIASES: [(&'static str, &'static str); 72] = [
    ("ai", "ki"),
    ("künstliche intelligenz", "ki"),
    ("artificial intelligence", "ki"),
    ("genai", "ki"),
    ("generative ki", "ki"),
    ("large language model", "llm"),
    ("large language models", "llm"),
    ("sprachmodell", "llm"),
    ("sprachmodelle", "llm"),
    ("chatbot", "llm"),
    ("agent", "agents"),
    ("agenten", "agents"),
    ("ki-agenten", "agents"),
    ("machine learning", "ml-forschung"),
    ("maschinelles lernen", "ml-forschung"),
    ("deep learning", "ml-forschung"),
    ("halbleiter", "chips"),
    ("semiconductor", "chips"),
    ("gpu", "chips"),
    ("gpus", "chips"),
    ("prozessor", "chips"),
    ("software", "software-engineering"),
    ("softwareentwicklung", "software-engineering"),
    ("entwicklung", "software-engineering"),
    ("programmierung", "programmiersprachen"),
    ("rust", "programmiersprachen"),
    ("python", "programmiersprachen"),
    ("opensource", "open-source"),
    ("quelloffen", "open-source"),
    ("security", "sicherheit"),
    ("cybersecurity", "sicherheit"),
    ("cybersicherheit", "sicherheit"),
    ("it-sicherheit", "sicherheit"),
    ("privacy", "datenschutz"),
    ("privatsphäre", "datenschutz"),
    ("politik", "politik-regulierung"),
    ("regulierung", "politik-regulierung"),
    ("eu", "politik-regulierung"),
    ("gesetz", "politik-regulierung"),
    ("openai", "big-tech"),
    ("anthropic", "big-tech"),
    ("google", "big-tech"),
    ("microsoft", "big-tech"),
    ("apple", "big-tech"),
    ("meta", "big-tech"),
    ("amazon", "big-tech"),
    ("nvidia", "big-tech"),
    ("startup", "startups"),
    ("gründer", "startups"),
    ("venture capital", "startups"),
    ("ökonomie", "wirtschaft"),
    ("economy", "wirtschaft"),
    ("finanzen", "wirtschaft"),
    ("roboter", "robotik"),
    ("robotics", "robotik"),
    ("weltraum", "raumfahrt"),
    ("space", "raumfahrt"),
    ("astronomie", "raumfahrt"),
    ("forschung", "wissenschaft"),
    ("science", "wissenschaft"),
    ("strom", "energie"),
    ("energy", "energie"),
    ("klima", "energie"),
    ("presse", "medien"),
    ("journalismus", "medien"),
    ("spiele", "gaming"),
    ("videospiele", "gaming"),
    ("kryptowährung", "krypto"),
    ("bitcoin", "krypto"),
    ("blockchain", "krypto"),
    ("kultur", "gesellschaft"),
    ("arbeit", "gesellschaft"),
];

/// How many topics an item keeps.
pub const MAX_TOPICS: usize = 3;

/// Whether `t` is a canonical topic.
pub open spec fn is_topic(t: Seq<char>) -> bool {
    exists|i: int| 0 <= i < TOPICS@.len() && (#[trigger] TOPICS@[i])@ == t
}

/// The topic of the first alias from the place `i` on that is `t`.
pub open spec fn alias_from(t: Seq<char>, i: int) -> Option<Seq<char>>
    decreases ALIASES@.len() - i,
{
    if i < 0 || i >= ALIASES@.len() {
        None
    } else if ALIASES@[i].0@ == t {
        Some(ALIASES@[i].1@)
    } else {
        alias_from(t, i + 1)
    }
}

/// A tag without blanks around it, in lower case, and then without anything
/// around it that is neither a letter nor a number.
pub open spec fn cleaned(raw: Seq<char>) -> Seq<char> {
    trimmed(lowercase(trimmed(raw, CharClass::WhiteSpace)), CharClass::NotAlphanumeric)
}

/// The canonical topic of a tag, if it has one.
pub open spec fn topic_of(raw: Seq<char>) -> Option<Seq<char>> {
    let t = cleaned(raw);
    if t.len() == 0 {
        None
    } else if is_topic(t) {
        Some(t)
    } else {
        alias_from(t, 0)
    }
}

/// The view of an optional topic.
pub open spec fn opt_topic(o: Option<&'static str>) -> Option<Seq<char>> {
    match o {
        Some(s) => Some(s@),
        None => None,
    }
}

/// Brings one tag to its canonical topic.
pub fn normalize_topic(raw: &str) -> (r: Option<&'static str>)
    ensures
        opt_topic(r) == topic_of(raw@),
{
    let inner = trim(raw, CharClass::WhiteSpace);
    let lower = inner.as_str().to_lowercase();
    let t = trim(&lower, CharClass::NotAlphanumeric);
    if t.as_str().is_empty() {
        return None;
    }
    let mut i: usize = 0;
    while i < TOPICS.len()
        invariant
            i <= TOPICS@.len(),
            t@ == cleaned(raw@),
            t@.len() > 0,
            forall|k: int| 0 <= k < i ==> (#[trigger] TOPICS@[k])@ != t@,
        decreases TOPICS.len() - i,
    {
        if same(TOPICS[i], &t) {
            assert(TOPICS@[i as int]@ == t@);
            return Some(TOPICS[i]);
        }
        i = i + 1;
    }
    assert(!is_topic(t@));
    let mut j: usize = 0;
    while j < ALIASES.len()
        invariant
            j <= ALIASES@.len(),
            t@ == cleaned(raw@),
            t@.len() > 0,
            !is_topic(t@),
            alias_from(t@, 0) == alias_from(t@, j as int),
        decreases ALIASES.len() - j,
    {
        if same(ALIASES[j].0, &t) {
            return Some(ALIASES[j].1);
        }
        j = j + 1;
    }
    None
}

/// The distinct canonical topics of some tags, in order.
pub open spec fn topics_of(raw: Seq<Seq<char>>) -> Seq<Seq<char>>
    decreases raw.len(),
{
    if raw.len() == 0 {
        seq![]
    } else {
        let before = topics_of(raw.drop_last());
        match topic_of(raw.last()) {
            Some(t) => if before.contains(t) {
                before
            } else {
                before.push(t)
            },
            None => before,
        }
    }
}

/// The first three of them.
pub open spec fn kept_topics(raw: Seq<Seq<char>>) -> Seq<Seq<char>> {
    let all = topics_of(raw);
    if all.len() <= MAX_TOPICS {
        all
    } else {
        all.take(MAX_TOPICS as int)
    }
}

/// Brings the tags of an item to canonical topics: each once, in their order,
/// at most three.
pub fn normalize_topics(raw: &Vec<String>) -> (r: Vec<String>)
    ensures
        views(r@) == kept_topics(views(raw@)),
{
    let ghost tags = views(raw@);
    let mut out: Vec<String> = Vec::new();
    let mut i: usize = 0;
    assert(views(out@) =~= seq![]);
    while i < raw.len()
        invariant
            i <= raw@.len(),
            tags == views(raw@),
            views(out@) == topics_of(tags.take(i as int)),
        decreases raw.len() - i,
    {
        proof {
            assert(tags.take(i + 1).drop_last() =~= tags.take(i as int));
            assert(tags.take(i + 1).last() == raw@[i as int]@);
        }
        match normalize_topic(&raw[i]) {
            Some(t) => {
                if !crate::text::holds(&out, t) {
                    let ghost prev = out@;
                    out.push(t.to_string());
                    assert(views(out@) =~= views(prev).push(t@));
                }
            },
            None => {},
        }
        i = i + 1;
    }
    assert(tags.take(i as int) =~= tags);
    let ghost all = views(out@);
    if out.len() > MAX_TOPICS {
        out.truncate(MAX_TOPICS);
        assert(views(out@) =~= all.take(MAX_TOPICS as int));
    }
    out
}

/// The vocabulary as texts.
pub open spec fn vocabulary() -> Seq<Seq<char>> {
    Seq::new(TOPICS@.len(), |i: int| TOPICS@[i]@)
}

/// The vocabulary as one list, with commas.
pub fn vocabulary_list() -> (r: String)
    ensures
        r@ == joined(vocabulary(), ", "@),
{
    let mut all: Vec<String> = Vec::new();
    let mut i: usize = 0;
    while i < TOPICS.len()
        invariant
            i <= TOPICS@.len(),
            views(all@) == vocabulary().take(i as int),
        decreases TOPICS.len() - i,
    {
        let ghost prev = all@;
        all.push(TOPICS[i].to_string());
        assert(views(all@) =~= views(prev).push(TOPICS@[i as int]@));
        assert(vocabulary().take(i + 1) =~= vocabulary().take(i as int).push(TOPICS@[i as int]@));
        i = i + 1;
    }
    assert(views(all@) =~= vocabulary());
    join(&all, ", ")
}

/// Every alias stands for a topic of the vocabulary.
pub proof fn aliases_target_vocabulary(i: int)
    requires
        0 <= i < ALIASES@.len(),
    ensures
        is_topic(ALIASES@[i].1@),
{
    assert(forall|k: int| 0 <= k < TOPICS@.len() ==> is_topic((#[trigger] TOPICS@[k])@));
}

/// What is not in the vocabulary is no result.
proof fn lemma_alias_topic(t: Seq<char>, i: int)
    ensures
        alias_from(t, i) is Some ==> is_topic(alias_from(t, i)->0),
    decreases ALIASES@.len() - i,
{
    if 0 <= i < ALIASES@.len() {
        aliases_target_vocabulary(i);
        lemma_alias_topic(t, i + 1);
    }
}

/// Every topic that a tag comes to is in the vocabulary: no tag becomes an arm
/// of its own.
pub proof fn topics_are_canonical(raw: Seq<char>)
    ensures
        topic_of(raw) is Some ==> is_topic(topic_of(raw)->0),
{
    lemma_alias_topic(cleaned(raw), 0);
}

/// What `normalize_topics` gives: canonical topics only, none twice, at most three.
pub proof fn kept_topics_are_distinct(raw: Seq<Seq<char>>)
    ensures
        kept_topics(raw).len() <= MAX_TOPICS,
        kept_topics(raw).no_duplicates(),
        forall|i: int| 0 <= i < kept_topics(raw).len() ==> is_topic(#[trigger] kept_topics(raw)[i]),
{
    lemma_topics_distinct(raw);
}

proof fn lemma_topics_distinct(raw: Seq<Seq<char>>)
    ensures
        topics_of(raw).no_duplicates(),
        forall|i: int| 0 <= i < topics_of(raw).len() ==> is_topic(#[trigger] topics_of(raw)[i]),
    decreases raw.len(),
{
    if raw.len() > 0 {
        lemma_topics_distinct(raw.drop_last());
        topics_are_canonical(raw.last());
    }
}

// ---------------------------------------------------------------------------
// The words of the vocabulary
// ---------------------------------------------------------------------------

/// Whether cleaning leaves a tag as it is: it is made of ASCII and German small
/// letters, has no capitals, and a letter or a number at both ends.
pub open spec fn is_clean(t: Seq<char>) -> bool {
    &&& t.len() > 0
    &&& is_common(t)
    &&& forall|i: int| 0 <= i < t.len() ==> small(#[trigger] t[i]) == t[i]
    &&& alphanumeric(t[0]) && alphanumeric(t.last())
    &&& !white_space(t[0]) && !white_space(t.last())
}

/// Cleaning leaves such a tag as it is.
proof fn lemma_clean(t: Seq<char>)
    requires
        is_clean(t),
    ensures
        cleaned(t) == t,
{
    assert(lowercase(t) =~= t);
}

/// A number of a word by its length, its first and its last letter. The words of
/// the vocabulary have different ones.
spec fn mark(t: Seq<char>) -> int {
    t.len() * 1_000_000 + t[0] as int * 1_000 + t.last() as int
}

/// Which word has a number: the aliases count from 0, the topics from 100.
spec fn word_of(mark: int) -> int {
    if mark == 2097105 {
        0
    } else if mark == 22107122 {
        1
    } else if mark == 23097101 {
        2
    } else if mark == 5103105 {
        3
    } else if mark == 13103105 {
        4
    } else if mark == 20108108 {
        5
    } else if mark == 21108115 {
        6
    } else if mark == 12115108 {
        7
    } else if mark == 13115101 {
        8
    } else if mark == 7099116 {
        9
    } else if mark == 5097116 {
        10
    } else if mark == 7097110 {
        11
    } else if mark == 10107110 {
        12
    } else if mark == 16109103 {
        13
    } else if mark == 19109110 {
        14
    } else if mark == 13100103 {
        15
    } else if mark == 10104114 {
        16
    } else if mark == 13115114 {
        17
    } else if mark == 3103117 {
        18
    } else if mark == 4103115 {
        19
    } else if mark == 9112114 {
        20
    } else if mark == 8115101 {
        21
    } else if mark == 19115103 {
        22
    } else if mark == 11101103 {
        23
    } else if mark == 14112103 {
        24
    } else if mark == 4114116 {
        25
    } else if mark == 6112110 {
        26
    } else if mark == 10111101 {
        27
    } else if mark == 10113110 {
        28
    } else if mark == 8115121 {
        29
    } else if mark == 13099121 {
        30
    } else if mark == 15099116 {
        31
    } else if mark == 13105116 {
        32
    } else if mark == 7112121 {
        33
    } else if mark == 12112101 {
        34
    } else if mark == 7112107 {
        35
    } else if mark == 11114103 {
        36
    } else if mark == 2101117 {
        37
    } else if mark == 6103122 {
        38
    } else if mark == 6111105 {
        39
    } else if mark == 9097099 {
        40
    } else if mark == 6103101 {
        41
    } else if mark == 9109116 {
        42
    } else if mark == 5097101 {
        43
    } else if mark == 4109097 {
        44
    } else if mark == 6097110 {
        45
    } else if mark == 6110097 {
        46
    } else if mark == 7115112 {
        47
    } else if mark == 7103114 {
        48
    } else if mark == 15118108 {
        49
    } else if mark == 8246101 {
        50
    } else if mark == 7101121 {
        51
    } else if mark == 8102110 {
        52
    } else if mark == 7114114 {
        53
    } else if mark == 8114115 {
        54
    } else if mark == 8119109 {
        55
    } else if mark == 5115101 {
        56
    } else if mark == 10097101 {
        57
    } else if mark == 9102103 {
        58
    } else if mark == 7115101 {
        59
    } else if mark == 5115109 {
        60
    } else if mark == 6101121 {
        61
    } else if mark == 5107097 {
        62
    } else if mark == 6112101 {
        63
    } else if mark == 12106115 {
        64
    } else if mark == 6115101 {
        65
    } else if mark == 11118101 {
        66
    } else if mark == 13107103 {
        67
    } else if mark == 7098110 {
        68
    } else if mark == 10098110 {
        69
    } else if mark == 6107114 {
        70
    } else if mark == 6097116 {
        71
    } else if mark == 2107105 {
        100
    } else if mark == 3108109 {
        101
    } else if mark == 6097115 {
        102
    } else if mark == 12109103 {
        103
    } else if mark == 5099115 {
        104
    } else if mark == 8104101 {
        105
    } else if mark == 20115103 {
        106
    } else if mark == 19112110 {
        107
    } else if mark == 11111101 {
        108
    } else if mark == 5099100 {
        109
    } else if mark == 10115116 {
        110
    } else if mark == 11100122 {
        111
    } else if mark == 19112103 {
        112
    } else if mark == 8098104 {
        113
    } else if mark == 8115115 {
        114
    } else if mark == 10119116 {
        115
    } else if mark == 7114107 {
        116
    } else if mark == 9114116 {
        117
    } else if mark == 12119116 {
        118
    } else if mark == 7101101 {
        119
    } else if mark == 6109110 {
        120
    } else if mark == 6103103 {
        121
    } else if mark == 6107111 {
        122
    } else if mark == 12103116 {
        123
    } else {
        -1
    }
}

proof fn lemma_alias_word_0(i: int)
    requires
        0 <= i < 12,
    ensures
        is_clean(ALIASES@[i].0@),
        word_of(mark(ALIASES@[i].0@)) == i,
{
    if i == 0 {
        reveal_strlit("ai");
        assert(is_clean("ai"@) && mark("ai"@) == 2097105);
    } else if i == 1 {
        reveal_strlit("künstliche intelligenz");
        assert(is_clean("künstliche intelligenz"@) && mark("künstliche intelligenz"@) == 22107122);
    } else if i == 2 {
        reveal_strlit("artificial intelligence");
        assert(is_clean("artificial intelligence"@) && mark("artificial intelligence"@) == 23097101);
    } else if i == 3 {
        reveal_strlit("genai");
        assert(is_clean("genai"@) && mark("genai"@) == 5103105);
    } else if i == 4 {
        reveal_strlit("generative ki");
        assert(is_clean("generative ki"@) && mark("generative ki"@) == 13103105);
    } else if i == 5 {
        reveal_strlit("large language model");
        assert(is_clean("large language model"@) && mark("large language model"@) == 20108108);
    } else if i == 6 {
        reveal_strlit("large language models");
        assert(is_clean("large language models"@) && mark("large language models"@) == 21108115);
    } else if i == 7 {
        reveal_strlit("sprachmodell");
        assert(is_clean("sprachmodell"@) && mark("sprachmodell"@) == 12115108);
    } else if i == 8 {
        reveal_strlit("sprachmodelle");
        assert(is_clean("sprachmodelle"@) && mark("sprachmodelle"@) == 13115101);
    } else if i == 9 {
        reveal_strlit("chatbot");
        assert(is_clean("chatbot"@) && mark("chatbot"@) == 7099116);
    } else if i == 10 {
        reveal_strlit("agent");
        assert(is_clean("agent"@) && mark("agent"@) == 5097116);
    } else if i == 11 {
        reveal_strlit("agenten");
        assert(is_clean("agenten"@) && mark("agenten"@) == 7097110);
    }
}

proof fn lemma_alias_word_1(i: int)
    requires
        12 <= i < 24,
    ensures
        is_clean(ALIASES@[i].0@),
        word_of(mark(ALIASES@[i].0@)) == i,
{
    if i == 12 {
        reveal_strlit("ki-agenten");
        assert(is_clean("ki-agenten"@) && mark("ki-agenten"@) == 10107110);
    } else if i == 13 {
        reveal_strlit("machine learning");
        assert(is_clean("machine learning"@) && mark("machine learning"@) == 16109103);
    } else if i == 14 {
        reveal_strlit("maschinelles lernen");
        assert(is_clean("maschinelles lernen"@) && mark("maschinelles lernen"@) == 19109110);
    } else if i == 15 {
        reveal_strlit("deep learning");
        assert(is_clean("deep learning"@) && mark("deep learning"@) == 13100103);
    } else if i == 16 {
        reveal_strlit("halbleiter");
        assert(is_clean("halbleiter"@) && mark("halbleiter"@) == 10104114);
    } else if i == 17 {
        reveal_strlit("semiconductor");
        assert(is_clean("semiconductor"@) && mark("semiconductor"@) == 13115114);
    } else if i == 18 {
        reveal_strlit("gpu");
        assert(is_clean("gpu"@) && mark("gpu"@) == 3103117);
    } else if i == 19 {
        reveal_strlit("gpus");
        assert(is_clean("gpus"@) && mark("gpus"@) == 4103115);
    } else if i == 20 {
        reveal_strlit("prozessor");
        assert(is_clean("prozessor"@) && mark("prozessor"@) == 9112114);
    } else if i == 21 {
        reveal_strlit("software");
        assert(is_clean("software"@) && mark("software"@) == 8115101);
    } else if i == 22 {
        reveal_strlit("softwareentwicklung");
        assert(is_clean("softwareentwicklung"@) && mark("softwareentwicklung"@) == 19115103);
    } else if i == 23 {
        reveal_strlit("entwicklung");
        assert(is_clean("entwicklung"@) && mark("entwicklung"@) == 11101103);
    }
}

proof fn lemma_alias_word_2(i: int)
    requires
        24 <= i < 36,
    ensures
        is_clean(ALIASES@[i].0@),
        word_of(mark(ALIASES@[i].0@)) == i,
{
    if i == 24 {
        reveal_strlit("programmierung");
        assert(is_clean("programmierung"@) && mark("programmierung"@) == 14112103);
    } else if i == 25 {
        reveal_strlit("rust");
        assert(is_clean("rust"@) && mark("rust"@) == 4114116);
    } else if i == 26 {
        reveal_strlit("python");
        assert(is_clean("python"@) && mark("python"@) == 6112110);
    } else if i == 27 {
        reveal_strlit("opensource");
        assert(is_clean("opensource"@) && mark("opensource"@) == 10111101);
    } else if i == 28 {
        reveal_strlit("quelloffen");
        assert(is_clean("quelloffen"@) && mark("quelloffen"@) == 10113110);
    } else if i == 29 {
        reveal_strlit("security");
        assert(is_clean("security"@) && mark("security"@) == 8115121);
    } else if i == 30 {
        reveal_strlit("cybersecurity");
        assert(is_clean("cybersecurity"@) && mark("cybersecurity"@) == 13099121);
    } else if i == 31 {
        reveal_strlit("cybersicherheit");
        assert(is_clean("cybersicherheit"@) && mark("cybersicherheit"@) == 15099116);
    } else if i == 32 {
        reveal_strlit("it-sicherheit");
        assert(is_clean("it-sicherheit"@) && mark("it-sicherheit"@) == 13105116);
    } else if i == 33 {
        reveal_strlit("privacy");
        assert(is_clean("privacy"@) && mark("privacy"@) == 7112121);
    } else if i == 34 {
        reveal_strlit("privatsphäre");
        assert(is_clean("privatsphäre"@) && mark("privatsphäre"@) == 12112101);
    } else if i == 35 {
        reveal_strlit("politik");
        assert(is_clean("politik"@) && mark("politik"@) == 7112107);
    }
}

proof fn lemma_alias_word_3(i: int)
    requires
        36 <= i < 48,
    ensures
        is_clean(ALIASES@[i].0@),
        word_of(mark(ALIASES@[i].0@)) == i,
{
    if i == 36 {
        reveal_strlit("regulierung");
        assert(is_clean("regulierung"@) && mark("regulierung"@) == 11114103);
    } else if i == 37 {
        reveal_strlit("eu");
        assert(is_clean("eu"@) && mark("eu"@) == 2101117);
    } else if i == 38 {
        reveal_strlit("gesetz");
        assert(is_clean("gesetz"@) && mark("gesetz"@) == 6103122);
    } else if i == 39 {
        reveal_strlit("openai");
        assert(is_clean("openai"@) && mark("openai"@) == 6111105);
    } else if i == 40 {
        reveal_strlit("anthropic");
        assert(is_clean("anthropic"@) && mark("anthropic"@) == 9097099);
    } else if i == 41 {
        reveal_strlit("google");
        assert(is_clean("google"@) && mark("google"@) == 6103101);
    } else if i == 42 {
        reveal_strlit("microsoft");
        assert(is_clean("microsoft"@) && mark("microsoft"@) == 9109116);
    } else if i == 43 {
        reveal_strlit("apple");
        assert(is_clean("apple"@) && mark("apple"@) == 5097101);
    } else if i == 44 {
        reveal_strlit("meta");
        assert(is_clean("meta"@) && mark("meta"@) == 4109097);
    } else if i == 45 {
        reveal_strlit("amazon");
        assert(is_clean("amazon"@) && mark("amazon"@) == 6097110);
    } else if i == 46 {
        reveal_strlit("nvidia");
        assert(is_clean("nvidia"@) && mark("nvidia"@) == 6110097);
    } else if i == 47 {
        reveal_strlit("startup");
        assert(is_clean("startup"@) && mark("startup"@) == 7115112);
    }
}

proof fn lemma_alias_word_4(i: int)
    requires
        48 <= i < 60,
    ensures
        is_clean(ALIASES@[i].0@),
        word_of(mark(ALIASES@[i].0@)) == i,
{
    if i == 48 {
        reveal_strlit("gründer");
        assert(is_clean("gründer"@) && mark("gründer"@) == 7103114);
    } else if i == 49 {
        reveal_strlit("venture capital");
        assert(is_clean("venture capital"@) && mark("venture capital"@) == 15118108);
    } else if i == 50 {
        reveal_strlit("ökonomie");
        assert(is_clean("ökonomie"@) && mark("ökonomie"@) == 8246101);
    } else if i == 51 {
        reveal_strlit("economy");
        assert(is_clean("economy"@) && mark("economy"@) == 7101121);
    } else if i == 52 {
        reveal_strlit("finanzen");
        assert(is_clean("finanzen"@) && mark("finanzen"@) == 8102110);
    } else if i == 53 {
        reveal_strlit("roboter");
        assert(is_clean("roboter"@) && mark("roboter"@) == 7114114);
    } else if i == 54 {
        reveal_strlit("robotics");
        assert(is_clean("robotics"@) && mark("robotics"@) == 8114115);
    } else if i == 55 {
        reveal_strlit("weltraum");
        assert(is_clean("weltraum"@) && mark("weltraum"@) == 8119109);
    } else if i == 56 {
        reveal_strlit("space");
        assert(is_clean("space"@) && mark("space"@) == 5115101);
    } else if i == 57 {
        reveal_strlit("astronomie");
        assert(is_clean("astronomie"@) && mark("astronomie"@) == 10097101);
    } else if i == 58 {
        reveal_strlit("forschung");
        assert(is_clean("forschung"@) && mark("forschung"@) == 9102103);
    } else if i == 59 {
        reveal_strlit("science");
        assert(is_clean("science"@) && mark("science"@) == 7115101);
    }
}

proof fn lemma_alias_word_5(i: int)
    requires
        60 <= i < 72,
    ensures
        is_clean(ALIASES@[i].0@),
        word_of(mark(ALIASES@[i].0@)) == i,
{
    if i == 60 {
        reveal_strlit("strom");
        assert(is_clean("strom"@) && mark("strom"@) == 5115109);
    } else if i == 61 {
        reveal_strlit("energy");
        assert(is_clean("energy"@) && mark("energy"@) == 6101121);
    } else if i == 62 {
        reveal_strlit("klima");
        assert(is_clean("klima"@) && mark("klima"@) == 5107097);
    } else if i == 63 {
        reveal_strlit("presse");
        assert(is_clean("presse"@) && mark("presse"@) == 6112101);
    } else if i == 64 {
        reveal_strlit("journalismus");
        assert(is_clean("journalismus"@) && mark("journalismus"@) == 12106115);
    } else if i == 65 {
        reveal_strlit("spiele");
        assert(is_clean("spiele"@) && mark("spiele"@) == 6115101);
    } else if i == 66 {
        reveal_strlit("videospiele");
        assert(is_clean("videospiele"@) && mark("videospiele"@) == 11118101);
    } else if i == 67 {
        reveal_strlit("kryptowährung");
        assert(is_clean("kryptowährung"@) && mark("kryptowährung"@) == 13107103);
    } else if i == 68 {
        reveal_strlit("bitcoin");
        assert(is_clean("bitcoin"@) && mark("bitcoin"@) == 7098110);
    } else if i == 69 {
        reveal_strlit("blockchain");
        assert(is_clean("blockchain"@) && mark("blockchain"@) == 10098110);
    } else if i == 70 {
        reveal_strlit("kultur");
        assert(is_clean("kultur"@) && mark("kultur"@) == 6107114);
    } else if i == 71 {
        reveal_strlit("arbeit");
        assert(is_clean("arbeit"@) && mark("arbeit"@) == 6097116);
    }
}

/// Every alias is clean, and has a number of its own.
proof fn lemma_alias_word(i: int)
    requires
        0 <= i < 72,
    ensures
        is_clean(ALIASES@[i].0@),
        word_of(mark(ALIASES@[i].0@)) == i,
{
    if i < 12 {
        lemma_alias_word_0(i);
    } else if i < 24 {
        lemma_alias_word_1(i);
    } else if i < 36 {
        lemma_alias_word_2(i);
    } else if i < 48 {
        lemma_alias_word_3(i);
    } else if i < 60 {
        lemma_alias_word_4(i);
    } else {
        lemma_alias_word_5(i);
    }
}

proof fn lemma_topic_word_0(i: int)
    requires
        0 <= i < 12,
    ensures
        is_clean(TOPICS@[i]@),
        word_of(mark(TOPICS@[i]@)) == 100 + i,
{
    if i == 0 {
        reveal_strlit("ki");
        assert(is_clean("ki"@) && mark("ki"@) == 2107105);
    } else if i == 1 {
        reveal_strlit("llm");
        assert(is_clean("llm"@) && mark("llm"@) == 3108109);
    } else if i == 2 {
        reveal_strlit("agents");
        assert(is_clean("agents"@) && mark("agents"@) == 6097115);
    } else if i == 3 {
        reveal_strlit("ml-forschung");
        assert(is_clean("ml-forschung"@) && mark("ml-forschung"@) == 12109103);
    } else if i == 4 {
        reveal_strlit("chips");
        assert(is_clean("chips"@) && mark("chips"@) == 5099115);
    } else if i == 5 {
        reveal_strlit("hardware");
        assert(is_clean("hardware"@) && mark("hardware"@) == 8104101);
    } else if i == 6 {
        reveal_strlit("software-engineering");
        assert(is_clean("software-engineering"@) && mark("software-engineering"@) == 20115103);
    } else if i == 7 {
        reveal_strlit("programmiersprachen");
        assert(is_clean("programmiersprachen"@) && mark("programmiersprachen"@) == 19112110);
    } else if i == 8 {
        reveal_strlit("open-source");
        assert(is_clean("open-source"@) && mark("open-source"@) == 11111101);
    } else if i == 9 {
        reveal_strlit("cloud");
        assert(is_clean("cloud"@) && mark("cloud"@) == 5099100);
    } else if i == 10 {
        reveal_strlit("sicherheit");
        assert(is_clean("sicherheit"@) && mark("sicherheit"@) == 10115116);
    } else if i == 11 {
        reveal_strlit("datenschutz");
        assert(is_clean("datenschutz"@) && mark("datenschutz"@) == 11100122);
    }
}

proof fn lemma_topic_word_1(i: int)
    requires
        12 <= i < 24,
    ensures
        is_clean(TOPICS@[i]@),
        word_of(mark(TOPICS@[i]@)) == 100 + i,
{
    if i == 12 {
        reveal_strlit("politik-regulierung");
        assert(is_clean("politik-regulierung"@) && mark("politik-regulierung"@) == 19112103);
    } else if i == 13 {
        reveal_strlit("big-tech");
        assert(is_clean("big-tech"@) && mark("big-tech"@) == 8098104);
    } else if i == 14 {
        reveal_strlit("startups");
        assert(is_clean("startups"@) && mark("startups"@) == 8115115);
    } else if i == 15 {
        reveal_strlit("wirtschaft");
        assert(is_clean("wirtschaft"@) && mark("wirtschaft"@) == 10119116);
    } else if i == 16 {
        reveal_strlit("robotik");
        assert(is_clean("robotik"@) && mark("robotik"@) == 7114107);
    } else if i == 17 {
        reveal_strlit("raumfahrt");
        assert(is_clean("raumfahrt"@) && mark("raumfahrt"@) == 9114116);
    } else if i == 18 {
        reveal_strlit("wissenschaft");
        assert(is_clean("wissenschaft"@) && mark("wissenschaft"@) == 12119116);
    } else if i == 19 {
        reveal_strlit("energie");
        assert(is_clean("energie"@) && mark("energie"@) == 7101101);
    } else if i == 20 {
        reveal_strlit("medien");
        assert(is_clean("medien"@) && mark("medien"@) == 6109110);
    } else if i == 21 {
        reveal_strlit("gaming");
        assert(is_clean("gaming"@) && mark("gaming"@) == 6103103);
    } else if i == 22 {
        reveal_strlit("krypto");
        assert(is_clean("krypto"@) && mark("krypto"@) == 6107111);
    } else if i == 23 {
        reveal_strlit("gesellschaft");
        assert(is_clean("gesellschaft"@) && mark("gesellschaft"@) == 12103116);
    }
}

/// Every topic is clean, and has a number of its own.
proof fn lemma_topic_word(i: int)
    requires
        0 <= i < 24,
    ensures
        is_clean(TOPICS@[i]@),
        word_of(mark(TOPICS@[i]@)) == 100 + i,
{
    if i < 12 {
        lemma_topic_word_0(i);
    } else {
        lemma_topic_word_1(i);
    }
}

/// The first alias that is `t` counts.
proof fn lemma_first_alias(t: Seq<char>, i: int, from: int)
    requires
        0 <= from <= i < ALIASES@.len(),
        ALIASES@[i].0@ == t,
        forall|k: int| 0 <= k < i ==> (#[trigger] ALIASES@[k]).0@ != t,
    ensures
        alias_from(t, from) == Some(ALIASES@[i].1@),
    decreases i - from,
{
    if from < i {
        lemma_first_alias(t, i, from + 1);
    }
}

/// Every canonical topic comes to itself.
pub proof fn topic_comes_to_itself(t: Seq<char>)
    requires
        is_topic(t),
    ensures
        topic_of(t) == Some(t),
{
    let k = choose|k: int| 0 <= k < TOPICS@.len() && (#[trigger] TOPICS@[k])@ == t;
    lemma_topic_word(k);
    lemma_clean(t);
}

/// Every alias comes to the topic that it stands for.
pub proof fn alias_comes_to_its_topic(i: int)
    requires
        0 <= i < ALIASES@.len(),
    ensures
        topic_of(ALIASES@[i].0@) == Some(ALIASES@[i].1@),
{
    let t = ALIASES@[i].0@;
    lemma_alias_word(i);
    lemma_clean(t);
    assert(!is_topic(t)) by {
        if is_topic(t) {
            let k = choose|k: int| 0 <= k < TOPICS@.len() && (#[trigger] TOPICS@[k])@ == t;
            lemma_topic_word(k);
        }
    }
    assert forall|k: int| 0 <= k < i implies (#[trigger] ALIASES@[k]).0@ != t by {
        lemma_alias_word(k);
    }
    lemma_first_alias(t, i, 0);
}

/// What a tag came to comes to itself: a second pass changes nothing.
pub proof fn normalizing_is_stable(raw: Seq<char>)
    requires
        topic_of(raw) is Some,
    ensures
        topic_of(topic_of(raw)->0) == topic_of(raw),
{
    topics_are_canonical(raw);
    topic_comes_to_itself(topic_of(raw)->0);
}

/// Further tags only add topics at the end.
proof fn lemma_topics_prefix(raw: Seq<Seq<char>>, more: Seq<Seq<char>>)
    ensures
        topics_of(raw).len() <= topics_of(raw + more).len(),
        topics_of(raw + more).take(topics_of(raw).len() as int) == topics_of(raw),
    decreases more.len(),
{
    let first = topics_of(raw);
    if more.len() == 0 {
        assert(raw + more =~= raw);
        assert(first.take(first.len() as int) =~= first);
    } else {
        lemma_topics_prefix(raw, more.drop_last());
        assert((raw + more).drop_last() =~= raw + more.drop_last());
        let before = topics_of(raw + more.drop_last());
        let all = topics_of(raw + more);
        assert(all == before || all == before.push(all.last()));
        assert(all.take(first.len() as int) =~= before.take(first.len() as int));
    }
}

/// Later tags never displace earlier ones: the topics of some tags are the first
/// topics of these tags and any others behind them.
pub proof fn later_tags_displace_none(raw: Seq<Seq<char>>, more: Seq<Seq<char>>)
    ensures
        kept_topics(raw).len() <= kept_topics(raw + more).len(),
        kept_topics(raw + more).take(kept_topics(raw).len() as int) == kept_topics(raw),
{
    lemma_topics_prefix(raw, more);
    let n = kept_topics(raw).len() as int;
    let all = topics_of(raw + more);
    let first = topics_of(raw);
    assert(kept_topics(raw + more).take(n) =~= all.take(n));
    assert(all.take(n) =~= all.take(first.len() as int).take(n));
    assert(first.take(n) =~= kept_topics(raw));
}

/// Topics that are canonical and distinct are their own topics.
proof fn lemma_topics_stable(list: Seq<Seq<char>>)
    requires
        list.no_duplicates(),
        forall|i: int| 0 <= i < list.len() ==> is_topic(#[trigger] list[i]),
    ensures
        topics_of(list) == list,
    decreases list.len(),
{
    if list.len() > 0 {
        let before = list.drop_last();
        assert forall|i: int| 0 <= i < before.len() implies is_topic(#[trigger] before[i]) by {
            assert(before[i] == list[i]);
        }
        lemma_topics_stable(before);
        assert(is_topic(list[list.len() - 1]));
        topic_comes_to_itself(list.last());
        assert(!before.contains(list.last())) by {
            if before.contains(list.last()) {
                let k = choose|k: int| 0 <= k < before.len() && before[k] == list.last();
                assert(list[k] == list[list.len() - 1]);
            }
        }
        assert(before.push(list.last()) =~= list);
    }
}

/// Bringing the tags of an item to topics a second time changes nothing.
pub proof fn second_pass_changes_nothing(raw: Seq<Seq<char>>)
    ensures
        kept_topics(kept_topics(raw)) == kept_topics(raw),
{
    kept_topics_are_distinct(raw);
    lemma_topics_stable(kept_topics(raw));
}

/// A tag means the same with blanks around it, with marks around it and in any case,
/// here for tags of ASCII and German small letters.
pub proof fn dress_of_a_tag_does_not_matter(p: Seq<char>, w: Seq<char>, q: Seq<char>)
    requires
        w.len() > 0,
        is_common(p + w + q),
        alphanumeric(w[0]),
        alphanumeric(w.last()),
        forall|i: int| 0 <= i < p.len() ==> !alphanumeric(#[trigger] p[i]),
        forall|i: int| 0 <= i < q.len() ==> !alphanumeric(#[trigger] q[i]),
    ensures
        topic_of(p + w + q) == topic_of(w),
        topic_of(lowercase(w)) == topic_of(w),
{
    let s = p + w + q;
    assert forall|i: int| 0 <= i < w.len() implies is_ascii(#[trigger] w[i]) || is_umlaut(w[i]) by {
        assert(s[p.len() + i] == w[i]);
    }
    assert(is_common(w));
    let none = Seq::<char>::empty();
    let low = lowercase(w);
    lemma_dressed(p, w, q);
    lemma_dressed(none, w, none);
    assert(none + w + none =~= w);
    assert(is_common(low)) by {
        assert forall|i: int| 0 <= i < low.len() implies is_ascii(#[trigger] low[i]) || is_umlaut(low[i]) by {
            assert(low[i] == small(w[i]));
            assert(is_ascii(w[i]) || is_umlaut(w[i]));
        }
    }
    assert(low[0] == small(w[0]) && low.last() == small(w.last()));
    lemma_dressed(none, low, none);
    assert(none + low + none =~= low);
    assert(lowercase(low) =~= low);
}

proof fn lemma_dressed(p: Seq<char>, w: Seq<char>, q: Seq<char>)
    requires
        w.len() > 0,
        is_common(p + w + q),
        is_common(w),
        alphanumeric(w[0]),
        alphanumeric(w.last()),
        forall|i: int| 0 <= i < p.len() ==> !alphanumeric(#[trigger] p[i]),
        forall|i: int| 0 <= i < q.len() ==> !alphanumeric(#[trigger] q[i]),
    ensures
        cleaned(p + w + q) == lowercase(w),
{
    let s = p + w + q;
    let a = p.len() as int;
    let b = a + w.len();
    assert(s[a] == w[0] && s[b - 1] == w.last());
    let ends = trimming_takes_the_ends(s, CharClass::WhiteSpace);
    assert(!white_space(w[0]) && !white_space(w.last()));
    assert(ends.0 <= a && ends.1 >= b) by {
        if ends.0 > a {
            assert(CharClass::WhiteSpace.has(s[a]));
        }
        if ends.1 < b {
            assert(CharClass::WhiteSpace.has(s[b - 1]));
        }
    }
    let inner = s.subrange(ends.0, ends.1);
    assert forall|i: int| 0 <= i < inner.len() implies is_ascii(#[trigger] inner[i]) || is_umlaut(inner[i]) by {
        assert(inner[i] == s[ends.0 + i]);
    }
    let low = lowercase(inner);
    let front = low.take(a - ends.0);
    let back = low.skip(b - ends.0);
    let mid = lowercase(w);
    assert(low =~= front + mid + back) by {
        assert forall|i: int| 0 <= i < w.len() implies low[a - ends.0 + i] == #[trigger] mid[i] by {
            assert(inner[a - ends.0 + i] == w[i]);
        }
    }
    assert forall|i: int| 0 <= i < front.len() implies CharClass::NotAlphanumeric.has(#[trigger] front[i]) by {
        assert(inner[i] == p[ends.0 + i]);
        assert(!alphanumeric(p[ends.0 + i]));
    }
    assert forall|i: int| 0 <= i < back.len() implies CharClass::NotAlphanumeric.has(#[trigger] back[i]) by {
        assert(inner[b - ends.0 + i] == q[i]);
        assert(!alphanumeric(q[i]));
    }
    assert(mid[0] == small(w[0]) && mid.last() == small(w.last()));
    ends_are_trimmed(front, mid, back, CharClass::NotAlphanumeric);
}

/// A tag has a topic only where, cleaned, it is one or is listed as standing for one.
pub proof fn other_tags_have_no_topic(raw: Seq<char>)
    ensures
        topic_of(raw) is Some ==> (is_topic(cleaned(raw)) && topic_of(raw) == Some(cleaned(raw))) || exists|i: int|
            0 <= i < ALIASES@.len() && (#[trigger] ALIASES@[i]).0@ == cleaned(raw) && topic_of(raw) == Some(
                ALIASES@[i].1@,
            ),
{
    lemma_alias_listed(cleaned(raw), 0);
}

proof fn lemma_alias_listed(t: Seq<char>, from: int)
    ensures
        alias_from(t, from) is Some ==> exists|i: int|
            0 <= i < ALIASES@.len() && (#[trigger] ALIASES@[i]).0@ == t && alias_from(t, from) == Some(ALIASES@[i].1@),
    decreases ALIASES@.len() - from,
{
    if 0 <= from < ALIASES@.len() {
        if ALIASES@[from].0@ != t {
            lemma_alias_listed(t, from + 1);
        }
    }
}

/// The topics of an item are those of all its tags, each where it came first, and of
/// these the first three.
pub proof fn every_tag_gives_its_topic(raw: Seq<Seq<char>>)
    ensures
        topics_of(raw) == distinct_texts(
            raw.filter(|t: Seq<char>| topic_of(t) is Some).map_values(|t: Seq<char>| topic_of(t)->0),
        ),
        kept_topics(raw).is_prefix_of(topics_of(raw)),
        kept_topics(raw).len() < 3 ==> kept_topics(raw) == topics_of(raw),
        kept_topics(raw).len() <= 3,
    decreases raw.len(),
{
    let all = topics_of(raw);
    assert(all.take(all.len() as int) =~= all);
    reveal(Seq::filter);
    let f = |t: Seq<char>| topic_of(t)->0;
    if raw.len() > 0 {
        let before = raw.drop_last();
        every_tag_gives_its_topic(before);
        let kept = before.filter(|t: Seq<char>| topic_of(t) is Some);
        if topic_of(raw.last()) is Some {
            assert(kept.push(raw.last()).map_values(f) =~= kept.map_values(f).push(f(raw.last())));
            assert(kept.map_values(f).push(f(raw.last())).drop_last() =~= kept.map_values(f));
        }
    } else {
        assert(raw.filter(|t: Seq<char>| topic_of(t) is Some).map_values(f) =~= Seq::<Seq<char>>::empty());
    }
}

} // verus!
