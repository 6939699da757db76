//! Masking engine: findings are replaced by placeholders such as `[PHONE_1]`, and
//! a map records each placeholder with its original text so it can be restored.
use vstd::prelude::*;
use vstd::utf8::*;
use crate::scanner::{byte_len, EntityType, MatchResult, MatchView, Scanner, match_views, prefix_of, label_of, scan_result};
use crate::text::{replace_all, decimal, chars_of, replace_chars, string_from_chars, decimal_chars, push_all};

verus! {

/// A pair of texts, such as (placeholder, original).
pub type TextPair = (Seq<char>, Seq<char>);

/// The text pairs held by a vector of string pairs.
pub open spec fn pair_views(v: Seq<(String, String)>) -> Seq<TextPair> {
    v.map_values(|p: (String, String)| (p.0@, p.1@))
}

/// The index of the last entry of `l` with key `k`, or -1.
pub open spec fn key_pos(l: Seq<TextPair>, k: Seq<char>) -> int
    decreases l.len(),
{
    if l.len() == 0 {
        -1
    } else if l.last().0 == k {
        l.len() - 1
    } else {
        key_pos(l.drop_last(), k)
    }
}

/// `l` with the value of key `k` set to `v`: the entry with key `k` (the last one,
/// should there be several) is updated in place, or `(k, v)` is appended.
pub open spec fn assoc_insert(l: Seq<TextPair>, k: Seq<char>, v: Seq<char>) -> Seq<TextPair> {
    if key_pos(l, k) >= 0 {
        l.update(key_pos(l, k), (k, v))
    } else {
        l.push((k, v))
    }
}

/// Whether key `k` occurs in `l`.
pub open spec fn has_key(l: Seq<TextPair>, k: Seq<char>) -> bool {
    exists|i: int| 0 <= i < l.len() && l[i].0 == k
}

/// The value of the last entry with key `k`, if any.
pub open spec fn assoc_get(l: Seq<TextPair>, k: Seq<char>) -> Option<Seq<char>>
    decreases l.len(),
{
    if l.len() == 0 {
        None
    } else if l.last().0 == k {
        Some(l.last().1)
    } else {
        assoc_get(l.drop_last(), k)
    }
}

/// `x` placed into `sorted` after every pair whose key is at least as long in bytes.
pub open spec fn insert_by_len(sorted: Seq<TextPair>, x: TextPair) -> Seq<TextPair>
    decreases sorted.len(),
{
    if sorted.len() == 0 {
        seq![x]
    } else if byte_len(sorted.last().0) >= byte_len(x.0) {
        sorted.push(x)
    } else {
        insert_by_len(sorted.drop_last(), x).push(sorted.last())
    }
}

/// The pairs ordered by the byte length of their keys, longest first, pairs with
/// keys of equal length kept in their order: the stable sort `sort_by` performs
/// with `b.len().cmp(&a.len())`.
pub open spec fn sort_by_len_desc(l: Seq<TextPair>) -> Seq<TextPair>
    decreases l.len(),
{
    if l.len() == 0 {
        seq![]
    } else {
        insert_by_len(sort_by_len_desc(l.drop_last()), l.last())
    }
}

/// `text` after replacing, pair by pair in order, every occurrence of the first
/// text of the pair by the second.
pub open spec fn replace_each(text: Seq<char>, pairs: Seq<TextPair>) -> Seq<char>
    decreases pairs.len(),
{
    if pairs.len() == 0 {
        text
    } else {
        replace_all(replace_each(text, pairs.drop_last()), pairs.last().0, pairs.last().1)
    }
}

/// The index of the last entry of `l` with key `k`, or -1.
pub open spec fn count_pos(l: Seq<(Seq<char>, nat)>, k: Seq<char>) -> int
    decreases l.len(),
{
    if l.len() == 0 {
        -1
    } else if l.last().0 == k {
        l.len() - 1
    } else {
        count_pos(l.drop_last(), k)
    }
}

/// `l` with the count of `k` raised by one (a new key is appended with count one).
pub open spec fn bump(l: Seq<(Seq<char>, nat)>, k: Seq<char>) -> Seq<(Seq<char>, nat)> {
    if count_pos(l, k) >= 0 {
        l.update(count_pos(l, k), (k, l[count_pos(l, k)].1 + 1))
    } else {
        l.push((k, 1nat))
    }
}

/// The distinct keys of `ks` in order of first appearance, each with its number of
/// occurrences.
pub open spec fn tally(ks: Seq<Seq<char>>) -> Seq<(Seq<char>, nat)>
    decreases ks.len(),
{
    if ks.len() == 0 {
        seq![]
    } else {
        bump(tally(ks.drop_last()), ks.last())
    }
}

/// The number of occurrences of `k` in `ks`.
pub open spec fn occurrences(ks: Seq<Seq<char>>, k: Seq<char>) -> nat
    decreases ks.len(),
{
    if ks.len() == 0 {
        0
    } else {
        occurrences(ks.drop_last(), k) + if ks.last() == k {
            1nat
        } else {
            0nat
        }
    }
}

/// The count recorded for `k` in a tally, zero if absent.
pub open spec fn count_of(l: Seq<(Seq<char>, nat)>, k: Seq<char>) -> nat
    decreases l.len(),
{
    if l.len() == 0 {
        0
    } else if l.last().0 == k {
        l.last().1
    } else {
        count_of(l.drop_last(), k)
    }
}

/// One line of the map: placeholder, original text, kind prefix, kind label.
#[derive(Debug, Clone)]
pub struct TokenEntry {
    pub placeholder: String,
    pub original: String,
    pub entity_type: String,
    pub entity_label: String,
}

/// An entry as a mathematical value.
pub type EntryView = (Seq<char>, Seq<char>, Seq<char>, Seq<char>);

impl View for TokenEntry {
    type V = EntryView;

    open spec fn view(&self) -> EntryView {
        (self.placeholder@, self.original@, self.entity_type@, self.entity_label@)
    }
}

/// The entries held by a vector.
pub open spec fn entry_views(v: Seq<TokenEntry>) -> Seq<EntryView> {
    v.map_values(|e: TokenEntry| e@)
}

/// The kind prefixes of the entries.
pub open spec fn entry_kinds(es: Seq<EntryView>) -> Seq<Seq<char>> {
    es.map_values(|e: EntryView| e.2)
}

impl TokenEntry {
    /// A copy of this entry.
    pub fn duplicate(&self) -> (r: TokenEntry)
        ensures
            r@ == self@,
    {
        TokenEntry {
            placeholder: self.placeholder.clone(),
            original: self.original.clone(),
            entity_type: self.entity_type.clone(),
            entity_label: self.entity_label.clone(),
        }
    }
}

/// The map of one masking: its entries in order, and both lookup tables.
#[derive(Debug, Clone)]
pub struct TokenMap {
    pub entries: Vec<TokenEntry>,
    /// Original text to placeholder.
    pub original_to_placeholder: Vec<(String, String)>,
    /// Placeholder to original text.
    pub placeholder_to_original: Vec<(String, String)>,
}

/// What `TokenMap::restore` returns for the placeholder table `p2o` and `text`.
pub open spec fn restore_result(p2o: Seq<TextPair>, text: Seq<char>) -> Seq<char> {
    replace_each(text, sort_by_len_desc(p2o))
}

/// A copy of a vector of string pairs.
fn copy_pairs(v: &Vec<(String, String)>) -> (r: Vec<(String, String)>)
    ensures
        r@ == v@,
{
    let mut r: Vec<(String, String)> = Vec::new();
    for i in 0..v.len()
        invariant
            r@ == v@.take(i as int),
    {
        r.push((v[i].0.clone(), v[i].1.clone()));
        assert(v@.take(i + 1) == v@.take(i as int).push(v@[i as int]));
    }
    assert(v@.take(v@.len() as int) == v@);
    r
}

/// Sets the value of key `k` to `v`, as `assoc_insert` describes.
fn assoc_put(l: &mut Vec<(String, String)>, k: String, v: String)
    ensures
        pair_views(final(l)@) == assoc_insert(pair_views(old(l)@), k@, v@),
{
    let ghost lv = pair_views(l@);
    let mut j: usize = l.len();
    while j > 0 && !string_eq(&l[j - 1].0, &k)
        invariant
            j <= l@.len(),
            lv == pair_views(l@),
            forall|m: int| j <= m < lv.len() ==> #[trigger] lv[m].0 != k@,
        decreases j,
    {
        j -= 1;
    }
    proof {
        lemma_key_pos(lv, k@, j as int);
    }
    if j == 0 {
        l.push((k, v));
        assert(pair_views(l@) =~= lv.push((k@, v@)));
    } else {
        l.set(j - 1, (k, v));
        assert(pair_views(l@) =~= lv.update(j - 1, (k@, v@)));
    }
}

proof fn lemma_key_pos(l: Seq<TextPair>, k: Seq<char>, j: int)
    requires
        0 <= j <= l.len(),
        forall|m: int| j <= m < l.len() ==> #[trigger] l[m].0 != k,
        j == 0 || l[j - 1].0 == k,
    ensures
        key_pos(l, k) == j - 1,
    decreases l.len(),
{
    if l.len() > 0 && j < l.len() {
        lemma_key_pos(l.drop_last(), k, j);
    }
}

/// Whether two strings hold the same text.
fn string_eq(a: &String, b: &String) -> (r: bool)
    ensures
        r == (a@ == b@),
{
    a.eq(b)
}

/// The counts held by a vector of (key, count) pairs.
pub open spec fn count_views(v: Seq<(String, usize)>) -> Seq<(Seq<char>, nat)> {
    v.map_values(|p: (String, usize)| (p.0@, p.1 as nat))
}

proof fn lemma_count_pos(l: Seq<(Seq<char>, nat)>, k: Seq<char>, j: int)
    requires
        0 <= j <= l.len(),
        forall|m: int| j <= m < l.len() ==> #[trigger] l[m].0 != k,
        j == 0 || l[j - 1].0 == k,
    ensures
        count_pos(l, k) == j - 1,
    decreases l.len(),
{
    if l.len() > 0 && j < l.len() {
        lemma_count_pos(l.drop_last(), k, j);
    }
}

proof fn lemma_count_of_pos(l: Seq<(Seq<char>, nat)>, k: Seq<char>)
    ensures
        count_pos(l, k) < l.len(),
        count_pos(l, k) >= 0 ==> l[count_pos(l, k)].0 == k && count_of(l, k) == l[count_pos(l, k)].1,
        count_pos(l, k) < 0 ==> count_of(l, k) == 0,
        count_pos(l, k) >= -1,
    decreases l.len(),
{
    if l.len() > 0 {
        lemma_count_of_pos(l.drop_last(), k);
    }
}

proof fn lemma_count_of_update(l: Seq<(Seq<char>, nat)>, k: Seq<char>, c: nat, other: Seq<char>)
    requires
        count_pos(l, k) >= 0,
    ensures
        count_of(l.update(count_pos(l, k), (k, c)), k) == c,
        other != k ==> count_of(l.update(count_pos(l, k), (k, c)), other) == count_of(l, other),
        count_pos(l.update(count_pos(l, k), (k, c)), k) == count_pos(l, k),
    decreases l.len(),
{
    lemma_count_of_pos(l, k);
    let idx = count_pos(l, k);
    let u = l.update(idx, (k, c));
    if idx == l.len() - 1 {
        assert(u.drop_last() == l.drop_last());
    } else {
        assert(count_pos(l.drop_last(), k) == idx);
        lemma_count_of_update(l.drop_last(), k, c, other);
        assert(u.drop_last() =~= l.drop_last().update(idx, (k, c)));
    }
}

proof fn lemma_bump_count(l: Seq<(Seq<char>, nat)>, k: Seq<char>, other: Seq<char>)
    ensures
        count_of(bump(l, k), k) == count_of(l, k) + 1,
        other != k ==> count_of(bump(l, k), other) == count_of(l, other),
{
    lemma_count_of_pos(l, k);
    if count_pos(l, k) >= 0 {
        lemma_count_of_update(l, k, l[count_pos(l, k)].1 + 1, other);
    } else {
        assert(bump(l, k).drop_last() == l);
    }
}

/// The sum of the counts of a tally.
pub open spec fn count_total(l: Seq<(Seq<char>, nat)>) -> nat
    decreases l.len(),
{
    if l.len() == 0 {
        0
    } else {
        count_total(l.drop_last()) + l.last().1
    }
}

proof fn lemma_count_pos_range(l: Seq<(Seq<char>, nat)>, k: Seq<char>)
    ensures
        -1 <= count_pos(l, k) < l.len(),
    decreases l.len(),
{
    if l.len() > 0 && l.last().0 != k {
        lemma_count_pos_range(l.drop_last(), k);
    }
}

proof fn lemma_count_total_raise(l: Seq<(Seq<char>, nat)>, i: int, k: Seq<char>)
    requires
        0 <= i < l.len(),
    ensures
        count_total(l.update(i, (k, l[i].1 + 1))) == count_total(l) + 1,
    decreases l.len(),
{
    let u = l.update(i, (k, l[i].1 + 1));
    if i == l.len() - 1 {
        assert(u.drop_last() == l.drop_last());
    } else {
        lemma_count_total_raise(l.drop_last(), i, k);
        assert(u.drop_last() == l.drop_last().update(i, (k, l[i].1 + 1)));
    }
}

/// The counts of a tally add up to the number of keys tallied.
pub proof fn lemma_tally_total(ks: Seq<Seq<char>>)
    ensures
        count_total(tally(ks)) == ks.len(),
    decreases ks.len(),
{
    if ks.len() > 0 {
        lemma_tally_total(ks.drop_last());
        let l = tally(ks.drop_last());
        let k = ks.last();
        lemma_count_pos_range(l, k);
        if count_pos(l, k) >= 0 {
            lemma_count_total_raise(l, count_pos(l, k), k);
        } else {
            assert(l.push((k, 1nat)).drop_last() == l);
        }
    }
}

/// The count a tally records for a key is its number of occurrences.
pub proof fn lemma_tally_counts(ks: Seq<Seq<char>>, k: Seq<char>)
    ensures
        count_of(tally(ks), k) == occurrences(ks, k),
    decreases ks.len(),
{
    if ks.len() > 0 {
        lemma_tally_counts(ks.drop_last(), k);
        lemma_bump_count(tally(ks.drop_last()), ks.last(), k);
    }
}

proof fn lemma_occurrences_bound(ks: Seq<Seq<char>>, k: Seq<char>)
    ensures
        occurrences(ks, k) <= ks.len(),
    decreases ks.len(),
{
    if ks.len() > 0 {
        lemma_occurrences_bound(ks.drop_last(), k);
    }
}

/// Raises the count of `k` by one in `l`, returning the new count.
fn bump_exec(l: &mut Vec<(String, usize)>, k: &String, Ghost(ks): Ghost<Seq<Seq<char>>>) -> (n: usize)
    requires
        count_views(old(l)@) == tally(ks),
        ks.len() < usize::MAX,
    ensures
        count_views(final(l)@) == tally(ks.push(k@)),
        n == occurrences(ks, k@) + 1,
{
    let ghost lv = count_views(l@);
    proof {
        assert(ks.push(k@).drop_last() == ks);
        lemma_tally_counts(ks, k@);
        lemma_occurrences_bound(ks, k@);
    }
    let mut j: usize = l.len();
    while j > 0 && !string_eq(&l[j - 1].0, k)
        invariant
            j <= l@.len(),
            lv == count_views(l@),
            forall|m: int| j <= m < lv.len() ==> #[trigger] lv[m].0 != k@,
        decreases j,
    {
        j -= 1;
    }
    proof {
        lemma_count_pos(lv, k@, j as int);
        lemma_count_of_pos(lv, k@);
    }
    if j == 0 {
        l.push((k.clone(), 1));
        assert(count_views(l@) =~= lv.push((k@, 1nat)));
        1
    } else {
        let c = l[j - 1].1;
        assert(c == count_of(lv, k@));
        l.set(j - 1, (k.clone(), c + 1));
        assert(count_views(l@) =~= lv.update(j - 1, (k@, lv[j - 1].1 + 1)));
        c + 1
    }
}

proof fn lemma_insert_len_at(s: Seq<TextPair>, x: TextPair, j: int)
    requires
        0 <= j <= s.len(),
        forall|k: int| j <= k < s.len() ==> byte_len(#[trigger] s[k].0) < byte_len(x.0),
        j == 0 || byte_len(s[j - 1].0) >= byte_len(x.0),
    ensures
        insert_by_len(s, x) == s.take(j).push(x) + s.skip(j),
    decreases s.len(),
{
    if s.len() == 0 {
        assert(s.take(j).push(x) + s.skip(j) =~= seq![x]);
    } else if j == s.len() {
        assert(s.take(j) == s);
        assert(s.take(j).push(x) + s.skip(j) =~= s.push(x));
    } else {
        assert(byte_len(s[s.len() - 1].0) < byte_len(x.0));
        lemma_insert_len_at(s.drop_last(), x, j);
        assert(s.drop_last().take(j).push(x) + s.drop_last().skip(j) + seq![s.last()] =~= s.take(
            j,
        ).push(x) + s.skip(j));
    }
}

/// `sort_by_len_desc` of the pairs.
fn sort_pairs_by_len(v: &Vec<(String, String)>) -> (r: Vec<(String, String)>)
    ensures
        pair_views(r@) == sort_by_len_desc(pair_views(v@)),
{
    let ghost input = pair_views(v@);
    let mut sorted: Vec<(String, String)> = Vec::new();
    let mut i: usize = 0;
    assert(input.take(0) == Seq::<TextPair>::empty());
    while i < v.len()
        invariant
            i <= v@.len(),
            input == pair_views(v@),
            pair_views(sorted@) == sort_by_len_desc(input.take(i as int)),
        decreases v.len() - i,
    {
        let x = (v[i].0.clone(), v[i].1.clone());
        let xl = x.0.as_str().as_bytes().len();
        let ghost sv = pair_views(sorted@);
        let mut j: usize = sorted.len();
        while j > 0 && sorted[j - 1].0.as_str().as_bytes().len() < xl
            invariant
                j <= sorted@.len(),
                sv == pair_views(sorted@),
                xl == byte_len(x.0@),
                forall|k: int| j <= k < sv.len() ==> byte_len(#[trigger] sv[k].0) < byte_len(x.0@),
            decreases j,
        {
            j -= 1;
        }
        proof {
            lemma_insert_len_at(sv, (x.0@, x.1@), j as int);
        }
        sorted.insert(j, x);
        assert(pair_views(sorted@) =~= sv.take(j as int).push((x.0@, x.1@)) + sv.skip(j as int));
        assert(input.take(i + 1).drop_last() == input.take(i as int));
        assert(input.take(i + 1).last() == input[i as int]);
        i += 1;
    }
    assert(input.take(v@.len() as int) == input);
    sorted
}

/// Replaces, pair by pair in order, every occurrence of the first text by the second.
fn replace_each_exec(text: Vec<char>, pairs: &Vec<(String, String)>) -> (r: Vec<char>)
    ensures
        r@ == replace_each(text@, pair_views(pairs@)),
{
    let ghost pv = pair_views(pairs@);
    let mut cur = text;
    let mut i: usize = 0;
    assert(pv.take(0) == Seq::<TextPair>::empty());
    while i < pairs.len()
        invariant
            i <= pairs@.len(),
            pv == pair_views(pairs@),
            cur@ == replace_each(text@, pv.take(i as int)),
        decreases pairs.len() - i,
    {
        let from = chars_of(pairs[i].0.as_str());
        let to = chars_of(pairs[i].1.as_str());
        cur = replace_chars(cur.as_slice(), from.as_slice(), to.as_slice());
        assert(pv.take(i + 1).drop_last() == pv.take(i as int));
        assert(pv.take(i + 1).last() == pv[i as int]);
        i += 1;
    }
    assert(pv.take(pairs@.len() as int) == pv);
    cur
}

impl TokenMap {
    pub fn new() -> (r: TokenMap)
        ensures
            r.entries@.len() == 0,
            r.original_to_placeholder@.len() == 0,
            r.placeholder_to_original@.len() == 0,
    {
        TokenMap {
            entries: Vec::new(),
            original_to_placeholder: Vec::new(),
            placeholder_to_original: Vec::new(),
        }
    }

    /// Records that `placeholder` stands for `original`, a finding of kind `entity_type`.
    pub fn add(&mut self, placeholder: String, original: String, entity_type: &EntityType)
        ensures
            pair_views(final(self).original_to_placeholder@) == assoc_insert(
                pair_views(old(self).original_to_placeholder@),
                original@,
                placeholder@,
            ),
            pair_views(final(self).placeholder_to_original@) == assoc_insert(
                pair_views(old(self).placeholder_to_original@),
                placeholder@,
                original@,
            ),
            entry_views(final(self).entries@) == entry_views(old(self).entries@).push(
                (placeholder@, original@, prefix_of(*entity_type), label_of(*entity_type)),
            ),
    {
        assoc_put(&mut self.original_to_placeholder, original.clone(), placeholder.clone());
        assoc_put(&mut self.placeholder_to_original, placeholder.clone(), original.clone());
        let ghost ev = entry_views(self.entries@);
        self.entries.push(
            TokenEntry {
                placeholder,
                original,
                entity_type: entity_type.prefix().to_owned(),
                entity_label: entity_type.label().to_owned(),
            },
        );
        assert(entry_views(self.entries@) =~= ev.push(self.entries@.last()@));
    }

    /// Puts every original text back in place of its placeholder; longer
    /// placeholders are replaced first.
    pub fn restore(&self, text: &str) -> (r: String)
        ensures
            r@ == restore_result(pair_views(self.placeholder_to_original@), text@),
    {
        let sorted = sort_pairs_by_len(&self.placeholder_to_original);
        let cur = replace_each_exec(chars_of(text), &sorted);
        string_from_chars(cur.as_slice())
    }

    /// The number of entries of each kind, kinds in order of first appearance.
    pub fn stat(&self) -> (r: Vec<(String, usize)>)
        ensures
            count_views(r@) == tally(entry_kinds(entry_views(self.entries@))),
            count_total(count_views(r@)) == self.entries@.len(),
    {
        let ghost kinds = entry_kinds(entry_views(self.entries@));
        let mut counts: Vec<(String, usize)> = Vec::new();
        let mut i: usize = 0;
        assert(kinds.take(0) == Seq::<Seq<char>>::empty());
        assert(count_views(counts@) =~= Seq::<(Seq<char>, nat)>::empty());
        while i < self.entries.len()
            invariant
                i <= self.entries@.len(),
                kinds == entry_kinds(entry_views(self.entries@)),
                count_views(counts@) == tally(kinds.take(i as int)),
            decreases self.entries.len() - i,
        {
            assert(kinds.take(i + 1) == kinds.take(i as int).push(self.entries@[i as int].entity_type@));
            bump_exec(&mut counts, &self.entries[i].entity_type, Ghost(kinds.take(i as int)));
            i += 1;
        }
        assert(kinds.take(self.entries@.len() as int) == kinds);
        proof {
            lemma_tally_total(kinds);
        }
        counts
    }

    /// The map of saved entries: the entries as they are, and both tables built by
    /// adding them in order, as the masking that made them built its own.
    pub fn from_entries(entries: Vec<TokenEntry>) -> (r: TokenMap)
        ensures
            entry_views(r.entries@) == entry_views(entries@),
            pair_views(r.placeholder_to_original@) == p2o_table(entry_views(entries@)),
            pair_views(r.original_to_placeholder@) == o2p_table(entry_views(entries@)),
    {
        let ghost es = entry_views(entries@);
        let mut o2p: Vec<(String, String)> = Vec::new();
        let mut p2o: Vec<(String, String)> = Vec::new();
        let mut i: usize = 0;
        assert(pair_views(o2p@) =~= o2p_table(es.take(0)));
        assert(pair_views(p2o@) =~= p2o_table(es.take(0)));
        while i < entries.len()
            invariant
                i <= entries@.len(),
                es == entry_views(entries@),
                pair_views(o2p@) == o2p_table(es.take(i as int)),
                pair_views(p2o@) == p2o_table(es.take(i as int)),
            decreases entries.len() - i,
        {
            let e = &entries[i];
            assert(es.take(i + 1).drop_last() == es.take(i as int));
            assert(es.take(i + 1).last() == e@);
            assoc_put(&mut o2p, e.original.clone(), e.placeholder.clone());
            assoc_put(&mut p2o, e.placeholder.clone(), e.original.clone());
            i += 1;
        }
        assert(es.take(entries@.len() as int) == es);
        TokenMap { entries, original_to_placeholder: o2p, placeholder_to_original: p2o }
    }

    /// A copy of this map.
    pub fn duplicate(&self) -> (r: TokenMap)
        ensures
            entry_views(r.entries@) == entry_views(self.entries@),
            r.original_to_placeholder@ == self.original_to_placeholder@,
            r.placeholder_to_original@ == self.placeholder_to_original@,
    {
        let mut entries: Vec<TokenEntry> = Vec::new();
        for i in 0..self.entries.len()
            invariant
                entry_views(entries@) == entry_views(self.entries@).take(i as int),
        {
            let ghost before = entry_views(entries@);
            entries.push(self.entries[i].duplicate());
            assert(entry_views(entries@) =~= before.push(self.entries@[i as int]@));
            assert(entry_views(self.entries@).take(i + 1) == entry_views(self.entries@).take(
                i as int,
            ).push(self.entries@[i as int]@));
        }
        assert(entry_views(self.entries@).take(self.entries@.len() as int) == entry_views(
            self.entries@,
        ));
        TokenMap {
            entries,
            original_to_placeholder: copy_pairs(&self.original_to_placeholder),
            placeholder_to_original: copy_pairs(&self.placeholder_to_original),
        }
    }
}

/// Whether some finding in `u` has the original text `o`.
pub open spec fn has_original(u: Seq<MatchView>, o: Seq<char>) -> bool {
    exists|i: int| 0 <= i < u.len() && u[i].0 == o
}

/// The first finding of each distinct original text, in order.
pub open spec fn first_findings(ms: Seq<MatchView>) -> Seq<MatchView>
    decreases ms.len(),
{
    if ms.len() == 0 {
        seq![]
    } else if has_original(first_findings(ms.drop_last()), ms.last().0) {
        first_findings(ms.drop_last())
    } else {
        first_findings(ms.drop_last()).push(ms.last())
    }
}

/// The placeholder `[PREFIX_n]`.
pub open spec fn placeholder_text(prefix: Seq<char>, n: nat) -> Seq<char> {
    seq!['['] + prefix + seq!['_'] + decimal(n) + seq![']']
}

/// The map entries for the distinct findings `us`: the n-th finding of a kind is
/// numbered n within its prefix.
pub open spec fn planned_entries(us: Seq<MatchView>) -> Seq<EntryView>
    decreases us.len(),
{
    if us.len() == 0 {
        seq![]
    } else {
        let prev = planned_entries(us.drop_last());
        let m = us.last();
        let p = prefix_of(m.3);
        prev.push(
            (placeholder_text(p, occurrences(entry_kinds(prev), p) + 1), m.0, p, label_of(m.3)),
        )
    }
}

proof fn lemma_planned_len(us: Seq<MatchView>)
    ensures
        planned_entries(us).len() == us.len(),
    decreases us.len(),
{
    if us.len() > 0 {
        lemma_planned_len(us.drop_last());
    }
}

/// The (original, placeholder) pairs of the entries.
pub open spec fn masking_pairs(es: Seq<EntryView>) -> Seq<TextPair> {
    es.map_values(|e: EntryView| (e.1, e.0))
}

/// The (placeholder, original) pairs of the entries.
pub open spec fn restoring_pairs(es: Seq<EntryView>) -> Seq<TextPair> {
    es.map_values(|e: EntryView| (e.0, e.1))
}

/// The text with every original replaced by its placeholder, longer originals first.
pub open spec fn masked_text(text: Seq<char>, es: Seq<EntryView>) -> Seq<char> {
    replace_each(text, sort_by_len_desc(masking_pairs(es)))
}

/// The placeholder-to-original table built by adding the entries in order.
pub open spec fn p2o_table(es: Seq<EntryView>) -> Seq<TextPair>
    decreases es.len(),
{
    if es.len() == 0 {
        seq![]
    } else {
        assoc_insert(p2o_table(es.drop_last()), es.last().0, es.last().1)
    }
}

/// The original-to-placeholder table built by adding the entries in order.
pub open spec fn o2p_table(es: Seq<EntryView>) -> Seq<TextPair>
    decreases es.len(),
{
    if es.len() == 0 {
        seq![]
    } else {
        assoc_insert(o2p_table(es.drop_last()), es.last().1, es.last().0)
    }
}

/// Whether a finding in `u` has the same original text as `o`.
fn has_original_exec(u: &Vec<MatchResult>, o: &String) -> (r: bool)
    ensures
        r == has_original(match_views(u@), o@),
{
    let ghost uv = match_views(u@);
    for i in 0..u.len()
        invariant
            uv == match_views(u@),
            forall|k: int| 0 <= k < i ==> uv[k].0 != o@,
    {
        if string_eq(&u[i].original, o) {
            assert(uv[i as int].0 == o@);
            return true;
        }
    }
    false
}

/// The placeholder `[prefix_n]` as a string.
fn make_placeholder(prefix: &str, n: usize) -> (r: String)
    ensures
        r@ == placeholder_text(prefix@, n as nat),
{
    let mut v: Vec<char> = Vec::new();
    v.push('[');
    let p = chars_of(prefix);
    push_all(&mut v, p.as_slice());
    v.push('_');
    let d = decimal_chars(n);
    push_all(&mut v, d.as_slice());
    v.push(']');
    assert(v@ =~= placeholder_text(prefix@, n as nat));
    string_from_chars(v.as_slice())
}

/// The masking engine: a scanner and the per-prefix counters of the last run.
pub struct Tokenizer {
    scanner: Scanner,
    counters: Vec<(String, usize)>,
    /// The map of the last masking.
    pub last_map: Option<TokenMap>,
}

impl Tokenizer {
    /// The rules of the scanner in use.
    pub closed spec fn rules(&self) -> Seq<(EntityType, Seq<char>)> {
        self.scanner.rules()
    }

    /// The custom dictionary of the scanner in use.
    pub closed spec fn dict(&self) -> Seq<(String, Seq<Seq<char>>)> {
        self.scanner.dict()
    }

    /// The map of the last masking, if any.
    pub closed spec fn last(&self) -> Option<TokenMap> {
        self.last_map
    }

    /// The per-prefix counters of the last masking.
    pub closed spec fn counters(&self) -> Seq<(Seq<char>, nat)> {
        count_views(self.counters@)
    }

    pub fn new() -> (r: Tokenizer)
        ensures
            r.rules() == crate::scanner::accepted_rules(crate::scanner::builtin_rules()),
            r.dict() == Seq::<(String, Seq<Seq<char>>)>::empty(),
            r.counters() == Seq::<(Seq<char>, nat)>::empty(),
            r.last() is None,
    {
        let r = Tokenizer { scanner: Scanner::new(), counters: Vec::new(), last_map: None };
        assert(r.counters() =~= Seq::<(Seq<char>, nat)>::empty());
        r
    }

    /// Replaces the custom dictionary; no two entries may share a label.
    pub fn load_custom_dict(&mut self, dict: Vec<(String, Vec<String>)>)
        requires
            crate::scanner::labels_distinct(dict@),
        ensures
            final(self).rules() == old(self).rules(),
            final(self).dict() == dict@.map_values(
                |e: (String, Vec<String>)| (e.0, e.1@.map_values(|t: String| t@)),
            ),
            final(self).counters() == old(self).counters(),
            final(self).last() == old(self).last(),
    {
        self.scanner.load_custom_dict(dict);
    }

    /// Masks `text`: each distinct finding gets one placeholder `[PREFIX_n]`, every
    /// occurrence of its text is replaced (longer texts first), and the map of
    /// placeholders is returned beside the masked text and kept as `last_map`.
    pub fn tokenize(&mut self, text: &str) -> (r: (String, TokenMap))
        ensures
            ({
                let es = planned_entries(
                    first_findings(scan_result(old(self).rules(), old(self).dict(), text@)),
                );
                &&& entry_views(r.1.entries@) == es
                &&& pair_views(r.1.placeholder_to_original@) == p2o_table(es)
                &&& pair_views(r.1.original_to_placeholder@) == o2p_table(es)
                &&& r.0@ == masked_text(text@, es)
                &&& final(self).counters() == tally(entry_kinds(es))
            }),
            final(self).rules() == old(self).rules(),
            final(self).dict() == old(self).dict(),
            final(self).last() matches Some(m) && entry_views(m.entries@) == entry_views(
                r.1.entries@,
            ) && m.placeholder_to_original@ == r.1.placeholder_to_original@
                && m.original_to_placeholder@ == r.1.original_to_placeholder@,
    {
        let matches = self.scanner.scan(text);
        let ghost ms = match_views(matches@);
        let mut map = TokenMap::new();
        self.counters = Vec::new();

        // The first finding of each distinct original text.
        let mut uniques: Vec<MatchResult> = Vec::new();
        let mut i: usize = 0;
        assert(ms.take(0) == Seq::<MatchView>::empty());
        assert(match_views(uniques@) =~= Seq::<MatchView>::empty());
        while i < matches.len()
            invariant
                i <= matches@.len(),
                ms == match_views(matches@),
                match_views(uniques@) == first_findings(ms.take(i as int)),
            decreases matches.len() - i,
        {
            assert(ms.take(i + 1).drop_last() == ms.take(i as int));
            assert(ms.take(i + 1).last() == matches@[i as int]@);
            if !has_original_exec(&uniques, &matches[i].original) {
                let ghost before = match_views(uniques@);
                uniques.push(matches[i].duplicate());
                assert(match_views(uniques@) =~= before.push(matches@[i as int]@));
            }
            i += 1;
        }
        assert(ms.take(matches@.len() as int) == ms);
        let ghost us = match_views(uniques@);

        // One placeholder per distinct finding, numbered within its prefix.
        let mut k: usize = 0;
        assert(us.take(0) == Seq::<MatchView>::empty());
        assert(entry_views(map.entries@) =~= Seq::<EntryView>::empty());
        assert(pair_views(map.placeholder_to_original@) =~= Seq::<TextPair>::empty());
        assert(pair_views(map.original_to_placeholder@) =~= Seq::<TextPair>::empty());
        assert(count_views(self.counters@) =~= Seq::<(Seq<char>, nat)>::empty());
        while k < uniques.len()
            invariant
                k <= uniques@.len(),
                us == match_views(uniques@),
                entry_views(map.entries@) == planned_entries(us.take(k as int)),
                pair_views(map.placeholder_to_original@) == p2o_table(entry_views(map.entries@)),
                pair_views(map.original_to_placeholder@) == o2p_table(entry_views(map.entries@)),
                count_views(self.counters@) == tally(entry_kinds(entry_views(map.entries@))),
                self.scanner == old(self).scanner,
            decreases uniques.len() - k,
        {
            let m = &uniques[k];
            let ghost es = entry_views(map.entries@);
            let prefix = m.entity_type.prefix();
            let prefix_owned = prefix.to_owned();
            proof {
                assert(us.take(k + 1).drop_last() == us.take(k as int));
                assert(us.take(k + 1).last() == m@);
                lemma_planned_len(us.take(k as int));
                assert(entry_kinds(es).len() == k);
            }
            let n = bump_exec(&mut self.counters, &prefix_owned, Ghost(entry_kinds(es)));
            let placeholder = make_placeholder(prefix, n);
            map.add(placeholder, m.original.clone(), &m.entity_type);
            proof {
                let es2 = entry_views(map.entries@);
                assert(es2.drop_last() == es);
                assert(entry_kinds(es2) =~= entry_kinds(es).push(prefix@));
            }
            k += 1;
        }
        assert(us.take(uniques@.len() as int) == us);
        let ghost es = entry_views(map.entries@);

        // Replace originals by placeholders, longer originals first.
        let mut pairs: Vec<(String, String)> = Vec::new();
        for j in 0..map.entries.len()
            invariant
                es == entry_views(map.entries@),
                pair_views(pairs@) == masking_pairs(es).take(j as int),
        {
            let ghost before = pair_views(pairs@);
            pairs.push((map.entries[j].original.clone(), map.entries[j].placeholder.clone()));
            assert(pair_views(pairs@) =~= before.push(masking_pairs(es)[j as int]));
            assert(masking_pairs(es).take(j + 1) == masking_pairs(es).take(j as int).push(
                masking_pairs(es)[j as int],
            ));
        }
        assert(masking_pairs(es).take(es.len() as int) == masking_pairs(es));
        let sorted = sort_pairs_by_len(&pairs);
        let masked = replace_each_exec(chars_of(text), &sorted);
        let sanitized = string_from_chars(masked.as_slice());
        self.last_map = Some(map.duplicate());
        (sanitized, map)
    }
}

} // verus!
