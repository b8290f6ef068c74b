//! Rules, the outcome of classifying a buffer, and what longest match with
//! fallback means over a rule set alone.

use vstd::prelude::*;

verus! {

/// Why a rule could not be registered.
#[derive(Debug, Clone, Copy, PartialEq, Eq)]
pub enum TrieError {
    /// Another rule with exactly the same pattern is already registered.
    DuplicatePattern,
}

/// A rule: a non-empty byte pattern and the value it stands for.
pub struct Rule<V> {
    pub pattern: Vec<u8>,
    pub value: V,
}

/// What classifying a buffer gave.
pub struct Outcome<'a, V> {
    /// The value of the pattern that matched, or `None` where the walk
    /// stopped at a prefix that is no pattern itself.
    pub value: Option<&'a V>,
    /// How many bytes of the buffer the walk followed.
    pub consumed: usize,
}

/// Whether `path` is empty or the start of some pattern of `rules`.
pub open spec fn is_viable<V>(rules: Map<Seq<u8>, V>, path: Seq<u8>) -> bool {
    path.len() == 0 || exists|k: Seq<u8>| rules.contains_key(k) && #[trigger] path.is_prefix_of(k)
}

/// The length of the longest viable prefix of `buf`, given that the prefix of
/// length `from` is viable.
pub open spec fn match_len<V>(rules: Map<Seq<u8>, V>, buf: Seq<u8>, from: int) -> int
    decreases buf.len() - from,
{
    if from < buf.len() && is_viable(rules, buf.take(from + 1)) {
        match_len(rules, buf, from + 1)
    } else {
        from
    }
}

/// Longest match with fallback, over the rules alone: the longest prefix of
/// `buf` that starts a pattern, with the value of the rule whose pattern is
/// exactly that prefix, if there is one.
pub open spec fn classification<V>(rules: Map<Seq<u8>, V>, buf: Seq<u8>) -> (Option<V>, int) {
    let n = match_len(rules, buf, 0);
    let matched = buf.take(n);
    (
        if rules.contains_key(matched) {
            Some(rules[matched])
        } else {
            None
        },
        n,
    )
}

/// Whether no two rules have the same pattern.
pub open spec fn distinct_patterns<V>(rules: Seq<Rule<V>>) -> bool {
    forall|i: int, j: int|
        0 <= i < j < rules.len() ==> (#[trigger] rules[i]).pattern@ != (#[trigger] rules[j]).pattern@
}

/// The rules as a map from pattern to value.
pub open spec fn rule_map<V>(rules: Seq<Rule<V>>) -> Map<Seq<u8>, V>
    decreases rules.len(),
{
    if rules.len() == 0 {
        Map::empty()
    } else {
        rule_map(rules.drop_last()).insert(rules.last().pattern@, rules.last().value)
    }
}

/// A pattern is in the map of a rule set exactly when some rule has it.
pub proof fn lemma_rule_map_dom<V>(rules: Seq<Rule<V>>, pattern: Seq<u8>)
    ensures
        rule_map(rules).contains_key(pattern) <==> exists|j: int|
            0 <= j < rules.len() && (#[trigger] rules[j]).pattern@ == pattern,
    decreases rules.len(),
{
    if rules.len() > 0 {
        let front = rules.drop_last();
        lemma_rule_map_dom(front, pattern);
        if rule_map(rules).contains_key(pattern) {
            if rules.last().pattern@ == pattern {
                assert(rules[rules.len() - 1].pattern@ == pattern);
            } else {
                let j = choose|j: int| 0 <= j < front.len() && (#[trigger] front[j]).pattern@ == pattern;
                assert(rules[j].pattern@ == pattern);
            }
        }
        if exists|j: int| 0 <= j < rules.len() && (#[trigger] rules[j]).pattern@ == pattern {
            let j = choose|j: int| 0 <= j < rules.len() && (#[trigger] rules[j]).pattern@ == pattern;
            if j < front.len() {
                assert(front[j].pattern@ == pattern);
            }
        }
    }
}

/// With distinct patterns, the map of a rule set gives each rule's pattern
/// that rule's value.
pub proof fn lemma_rule_map_value<V>(rules: Seq<Rule<V>>, i: int)
    requires
        distinct_patterns(rules),
        0 <= i < rules.len(),
    ensures
        rule_map(rules).contains_key(rules[i].pattern@),
        rule_map(rules)[rules[i].pattern@] == rules[i].value,
    decreases rules.len(),
{
    let front = rules.drop_last();
    if i < front.len() {
        assert(front[i] == rules[i]);
        assert(rules[rules.len() - 1].pattern@ != rules[i].pattern@);
        assert forall|a: int, b: int| 0 <= a < b < front.len() implies (#[trigger] front[a]).pattern@
            != (#[trigger] front[b]).pattern@ by {
            assert(rules[a].pattern@ != rules[b].pattern@);
        }
        lemma_rule_map_value(front, i);
    }
}

/// A prefix of a viable path is viable.
pub proof fn lemma_viable_prefix<V>(rules: Map<Seq<u8>, V>, short: Seq<u8>, long: Seq<u8>)
    requires
        is_viable(rules, long),
        short.is_prefix_of(long),
    ensures
        is_viable(rules, short),
{
    if short.len() > 0 {
        let k = choose|k: Seq<u8>| rules.contains_key(k) && #[trigger] long.is_prefix_of(k);
        assert(short =~= k.subrange(0, short.len() as int));
        assert(short.is_prefix_of(k));
    }
}

/// The walk is greedy: it stops at the longest viable prefix of the buffer.
/// Every prefix up to where it stops is viable, and no longer one is.
pub proof fn lemma_match_len_is_longest<V>(rules: Map<Seq<u8>, V>, buf: Seq<u8>, from: int)
    requires
        0 <= from <= buf.len(),
    ensures
        from <= match_len(rules, buf, from) <= buf.len(),
        forall|j: int|
            from < j <= match_len(rules, buf, from) ==> is_viable(rules, #[trigger] buf.take(j)),
        forall|j: int|
            match_len(rules, buf, from) < j <= buf.len() ==> !is_viable(rules, #[trigger] buf.take(j)),
    decreases buf.len() - from,
{
    if from < buf.len() && is_viable(rules, buf.take(from + 1)) {
        lemma_match_len_is_longest(rules, buf, from + 1);
    } else {
        assert forall|j: int| from < j <= buf.len() implies !is_viable(rules, #[trigger] buf.take(j)) by {
            if is_viable(rules, buf.take(j)) {
                assert(buf.take(from + 1) =~= buf.take(j).subrange(0, from + 1));
                lemma_viable_prefix(rules, buf.take(from + 1), buf.take(j));
            }
        }
    }
}

/// If every prefix of `buf` longer than `from` and no longer than `n` is
/// viable, and the next longer one, if any, is not, the walk from `from`
/// stops at `n`.
pub proof fn lemma_match_len_stops<V>(rules: Map<Seq<u8>, V>, buf: Seq<u8>, from: int, n: int)
    requires
        0 <= from <= n <= buf.len(),
        forall|j: int| from < j <= n ==> is_viable(rules, #[trigger] buf.take(j)),
        n == buf.len() || !is_viable(rules, buf.take(n + 1)),
    ensures
        match_len(rules, buf, from) == n,
    decreases n - from,
{
    if from < n {
        assert(is_viable(rules, buf.take(from + 1)));
        lemma_match_len_stops(rules, buf, from + 1, n);
    }
}

/// Classifying exactly the bytes of a registered pattern gives that rule's
/// value and the pattern's whole length.
pub proof fn lemma_pattern_matches_itself<V>(rules: Map<Seq<u8>, V>, pattern: Seq<u8>)
    requires
        rules.contains_key(pattern),
    ensures
        classification(rules, pattern) == (Some(rules[pattern]), pattern.len() as int),
{
    assert forall|j: int| 0 < j <= pattern.len() implies is_viable(rules, #[trigger] pattern.take(j)) by {
        assert(pattern.take(j).is_prefix_of(pattern));
    }
    lemma_match_len_stops(rules, pattern, 0, pattern.len() as int);
    assert(pattern.take(pattern.len() as int) =~= pattern);
}

/// Classifying a registered pattern followed by one byte that continues no
/// registered pattern falls back to that rule: its value, and the pattern's
/// length without the extra byte.
pub proof fn lemma_trailing_byte_falls_back<V>(rules: Map<Seq<u8>, V>, pattern: Seq<u8>, byte: u8)
    requires
        rules.contains_key(pattern),
        !is_viable(rules, pattern.push(byte)),
    ensures
        classification(rules, pattern.push(byte)) == (Some(rules[pattern]), pattern.len() as int),
{
    let buf = pattern.push(byte);
    assert forall|j: int| 0 < j <= pattern.len() implies is_viable(rules, #[trigger] buf.take(j)) by {
        assert(buf.take(j) =~= pattern.take(j));
        assert(pattern.take(j).is_prefix_of(pattern));
    }
    assert(buf.take(buf.len() as int) =~= buf);
    lemma_match_len_stops(rules, buf, 0, pattern.len() as int);
    assert(buf.take(pattern.len() as int) =~= pattern);
}

/// Where no rule has the empty pattern, classifying the empty buffer gives
/// no value and consumes nothing.
pub proof fn lemma_empty_buffer_of_rules<V>(rules: Map<Seq<u8>, V>)
    requires
        !rules.contains_key(Seq::<u8>::empty()),
    ensures
        classification(rules, Seq::<u8>::empty()) == (None::<V>, 0int),
{
    assert(Seq::<u8>::empty().take(0) =~= Seq::<u8>::empty());
}

} // verus!
