//! Restoring a masked text gives the text back: the law that makes masking reversible.
//!
//! The proof views a text during masking as a sequence of symbols, each either a
//! character or a reference to a map entry. Rendered with placeholders it is the
//! current text; rendered with originals it is the text before masking.
use vstd::prelude::*;
use crate::text::{replace_all, contains, occurs_at, decimal, digit_char};
use crate::scanner::{byte_len, MatchView, prefix_of};
use crate::tokenizer::{
    EntryView, TextPair, insert_by_len, sort_by_len_desc, replace_each, restoring_pairs,
    masking_pairs, restore_result, masked_text, planned_entries, placeholder_text, entry_kinds,
    occurrences, p2o_table, assoc_insert, key_pos, first_findings, has_original,
};

verus! {

/// Whether `s` holds neither `[` nor `]`.
pub open spec fn bracket_free(s: Seq<char>) -> bool {
    forall|i: int| 0 <= i < s.len() ==> #[trigger] s[i] != '[' && s[i] != ']'
}

/// Whether `p` has the shape of a placeholder: `[`, bracket-free text, `]`.
pub open spec fn placeholder_shaped(p: Seq<char>) -> bool {
    &&& p.len() >= 2
    &&& p[0] == '['
    &&& p.last() == ']'
    &&& forall|i: int| 1 <= i < p.len() - 1 ==> #[trigger] p[i] != '[' && p[i] != ']'
}

/// What the law asks of a map's entries (placeholder, original, ..): originals are
/// non-empty and bracket-free, placeholders are placeholder-shaped and distinct,
/// and no original occurs inside a placeholder.
pub open spec fn entries_reversible(es: Seq<EntryView>) -> bool {
    &&& forall|j: int| 0 <= j < es.len() ==> (#[trigger] es[j]).1.len() > 0 && bracket_free(es[j].1)
    &&& forall|j: int| 0 <= j < es.len() ==> placeholder_shaped(#[trigger] es[j].0)
    &&& forall|i: int, j: int| 0 <= i < es.len() && 0 <= j < es.len() && i != j ==> es[i].0 != es[j].0
    &&& forall|i: int, j: int|
        0 <= i < es.len() && 0 <= j < es.len() ==> !contains(#[trigger] es[i].0, #[trigger] es[j].1)
}

/// A symbol: `(true, c, _)` is the character `c`, `(false, _, j)` refers to entry `j`.
pub type Sym = (bool, char, int);

pub open spec fn ch(c: char) -> Sym {
    (true, c, 0)
}

pub open spec fn tok(j: int) -> Sym {
    (false, ' ', j)
}

/// The text of one symbol, with placeholders (`masked`) or with originals.
pub open spec fn sym_text(s: Sym, es: Seq<EntryView>, masked: bool) -> Seq<char> {
    if s.0 {
        seq![s.1]
    } else if masked {
        es[s.2].0
    } else {
        es[s.2].1
    }
}

pub open spec fn render(syms: Seq<Sym>, es: Seq<EntryView>, masked: bool) -> Seq<char>
    decreases syms.len(),
{
    if syms.len() == 0 {
        seq![]
    } else {
        sym_text(syms[0], es, masked) + render(syms.drop_first(), es, masked)
    }
}

/// Each symbol is a character or a reference into `es`.
pub open spec fn syms_wf(syms: Seq<Sym>, es: Seq<EntryView>) -> bool {
    forall|k: int|
        0 <= k < syms.len() ==> (#[trigger] syms[k] == ch(syms[k].1)) || (syms[k] == tok(syms[k].2) && 0 <= syms[k].2 < es.len())
}

pub open spec fn chars_syms(t: Seq<char>) -> Seq<Sym> {
    t.map_values(|c: char| ch(c))
}

proof fn lemma_render_concat(a: Seq<Sym>, b: Seq<Sym>, es: Seq<EntryView>, masked: bool)
    ensures
        render(a + b, es, masked) == render(a, es, masked) + render(b, es, masked),
    decreases a.len(),
{
    if a.len() == 0 {
        assert(a + b == b);
    } else {
        lemma_render_concat(a.drop_first(), b, es, masked);
        assert((a + b).drop_first() == a.drop_first() + b);
    }
}

proof fn lemma_render_chars(t: Seq<char>, es: Seq<EntryView>, masked: bool)
    ensures
        render(chars_syms(t), es, masked) == t,
    decreases t.len(),
{
    if t.len() > 0 {
        lemma_render_chars(t.drop_first(), es, masked);
        assert(chars_syms(t).drop_first() == chars_syms(t.drop_first()));
        assert(seq![t[0]] + t.drop_first() == t);
    }
}

/// No occurrence of `f` starts before `k`: the prefix is left as it is.
proof fn lemma_replace_skip(s: Seq<char>, f: Seq<char>, t: Seq<char>, k: int)
    requires
        f.len() > 0,
        0 <= k <= s.len(),
        forall|q: int| 0 <= q < k ==> !occurs_at(s, f, q),
    ensures
        replace_all(s, f, t) == s.take(k) + replace_all(s.skip(k), f, t),
    decreases k,
{
    if k == 0 {
        assert(s.take(0) + s.skip(0) == s.skip(0));
        assert(s.skip(0) == s);
    } else if s.len() < f.len() {
        assert(s.skip(k).len() < f.len());
        assert(s.take(k) + s.skip(k) == s);
    } else {
        assert(!occurs_at(s, f, 0));
        assert(s.subrange(0, f.len() as int) != f);
        let r = s.drop_first();
        assert forall|q: int| 0 <= q < k - 1 implies !occurs_at(r, f, q) by {
            if occurs_at(r, f, q) {
                assert(r.subrange(q, q + f.len()) == s.subrange(q + 1, q + 1 + f.len()));
                assert(occurs_at(s, f, q + 1));
            }
        }
        lemma_replace_skip(r, f, t, k - 1);
        assert(r.skip(k - 1) == s.skip(k));
        assert(seq![s[0]] + r.take(k - 1) == s.take(k));
    }
}

/// Whether the first symbols are the characters of `o`.
pub open spec fn spells(syms: Seq<Sym>, o: Seq<char>) -> bool {
    syms.len() >= o.len() && forall|k: int| 0 <= k < o.len() ==> #[trigger] syms[k] == ch(o[k])
}

/// Every run of characters spelling `o`, found from the left, becomes a reference to `j`.
pub open spec fn mask_syms(syms: Seq<Sym>, o: Seq<char>, j: int) -> Seq<Sym>
    decreases syms.len(),
{
    if syms.len() == 0 || o.len() == 0 {
        syms
    } else if spells(syms, o) {
        seq![tok(j)] + mask_syms(syms.skip(o.len() as int), o, j)
    } else {
        seq![syms[0]] + mask_syms(syms.drop_first(), o, j)
    }
}

proof fn lemma_render_spelled(syms: Seq<Sym>, o: Seq<char>, es: Seq<EntryView>, masked: bool)
    requires
        spells(syms, o),
    ensures
        render(syms, es, masked) == o + render(syms.skip(o.len() as int), es, masked),
    decreases o.len(),
{
    if o.len() == 0 {
        assert(syms.skip(0) == syms);
        assert(o + render(syms, es, masked) == render(syms, es, masked));
    } else {
        assert(syms[0] == ch(o[0]));
        let r = syms.drop_first();
        assert(spells(r, o.drop_first())) by {
            assert forall|k: int| 0 <= k < o.drop_first().len() implies #[trigger] r[k] == ch(
                o.drop_first()[k],
            ) by {
                assert(syms[k + 1] == ch(o[k + 1]));
            }
        }
        lemma_render_spelled(r, o.drop_first(), es, masked);
        assert(r.skip(o.len() - 1) == syms.skip(o.len() as int));
        assert(seq![o[0]] + o.drop_first() == o);
    }
}

/// A bracket-free text that the placeholder rendering starts with is spelled by
/// the symbols.
proof fn lemma_starts_spells(syms: Seq<Sym>, o: Seq<char>, es: Seq<EntryView>)
    requires
        syms_wf(syms, es),
        entries_reversible(es),
        o.len() > 0,
        bracket_free(o),
        o.len() <= render(syms, es, true).len(),
        render(syms, es, true).take(o.len() as int) == o,
    ensures
        spells(syms, o),
    decreases syms.len(),
{
    let rm = render(syms, es, true);
    if syms.len() == 0 {
        assert(false);
    } else {
        let s0 = syms[0];
        let r = syms.drop_first();
        assert(rm == sym_text(s0, es, true) + render(r, es, true));
        if !s0.0 {
            assert(placeholder_shaped(es[s0.2].0));
            assert(rm[0] == '[');
            assert(o[0] == rm.take(o.len() as int)[0]);
            assert(false);
        } else {
            assert(o[0] == rm[0]);
            if o.len() > 1 {
                let o2 = o.drop_first();
                assert(syms_wf(r, es)) by {
                    assert forall|k: int| 0 <= k < r.len() implies (#[trigger] r[k] == ch(r[k].1)) || (r[k] == tok(r[k].2) && 0 <= r[k].2
                        < es.len()) by {
                        assert(r[k] == syms[k + 1]);
                    }
                }
                assert(render(r, es, true).take(o2.len() as int) =~= o2);
                lemma_starts_spells(r, o2, es);
                assert forall|k: int| 0 <= k < o.len() implies #[trigger] syms[k] == ch(o[k]) by {
                    if k > 0 {
                        assert(r[k - 1] == ch(o2[k - 1]));
                    }
                }
            }
        }
    }
}

/// A text that the placeholder rendering starts with, at a character, with no `[`
/// after its first character, is spelled by the symbols.
proof fn lemma_spells_from_char(syms: Seq<Sym>, o: Seq<char>, es: Seq<EntryView>)
    requires
        syms_wf(syms, es),
        entries_reversible(es),
        o.len() > 0,
        syms.len() > 0,
        syms[0].0,
        forall|k: int| 1 <= k < o.len() ==> #[trigger] o[k] != '[',
        o.len() <= render(syms, es, true).len(),
        render(syms, es, true).take(o.len() as int) == o,
    ensures
        spells(syms, o),
    decreases o.len(),
{
    let rm = render(syms, es, true);
    let s0 = syms[0];
    let r = syms.drop_first();
    assert(syms[0] == ch(syms[0].1));
    assert(rm == sym_text(s0, es, true) + render(r, es, true));
    assert(o[0] == rm.take(o.len() as int)[0]);
    if o.len() > 1 {
        let o2 = o.drop_first();
        let rr = render(r, es, true);
        assert(rr.take(o2.len() as int) =~= o2);
        assert(syms_wf(r, es)) by {
            assert forall|k: int| 0 <= k < r.len() implies (#[trigger] r[k] == ch(r[k].1)) || (r[k]
                == tok(r[k].2) && 0 <= r[k].2 < es.len()) by {
                assert(r[k] == syms[k + 1]);
            }
        }
        assert(r.len() > 0);
        if !r[0].0 {
            assert(r[0] == tok(r[0].2));
            assert(rr == es[r[0].2].0 + render(r.drop_first(), es, true));
            assert(placeholder_shaped(es[r[0].2].0));
            assert(rr[0] == '[');
            assert(o2[0] == rr[0]);
            assert(o[1] == o2[0]);
            assert(false);
        }
        assert forall|k: int| 1 <= k < o2.len() implies #[trigger] o2[k] != '[' by {
            assert(o2[k] == o[k + 1]);
        }
        lemma_spells_from_char(r, o2, es);
        assert forall|k: int| 0 <= k < o.len() implies #[trigger] syms[k] == ch(o[k]) by {
            if k > 0 {
                assert(r[k - 1] == ch(o2[k - 1]));
                assert(syms[k] == r[k - 1]);
            }
        }
    } else {
        assert(syms[0] == ch(o[0]));
    }
}

proof fn lemma_drop_wf(syms: Seq<Sym>, es: Seq<EntryView>, n: int)
    requires
        syms_wf(syms, es),
        0 <= n <= syms.len(),
    ensures
        syms_wf(syms.skip(n), es),
{
    assert forall|k: int| 0 <= k < syms.skip(n).len() implies (#[trigger] syms.skip(n)[k] == ch(
        syms.skip(n)[k].1,
    )) || (syms.skip(n)[k] == tok(
        syms.skip(n)[k].2,
    ) && 0 <= syms.skip(n)[k].2 < es.len()) by {
        assert(syms.skip(n)[k] == syms[k + n]);
    }
}

/// Masking one entry keeps the original rendering.
proof fn lemma_mask_keeps_original(syms: Seq<Sym>, es: Seq<EntryView>, j: int)
    requires
        0 <= j < es.len(),
    ensures
        render(mask_syms(syms, es[j].1, j), es, false) == render(syms, es, false),
    decreases syms.len(),
{
    let o = es[j].1;
    if syms.len() == 0 || o.len() == 0 {
    } else if spells(syms, o) {
        lemma_mask_keeps_original(syms.skip(o.len() as int), es, j);
        lemma_render_spelled(syms, o, es, false);
        let m = mask_syms(syms.skip(o.len() as int), o, j);
        assert((seq![tok(j)] + m).drop_first() == m);
    } else {
        lemma_mask_keeps_original(syms.drop_first(), es, j);
        let m = mask_syms(syms.drop_first(), o, j);
        assert((seq![syms[0]] + m).drop_first() == m);
    }
}

/// Masking one entry on the symbols is `replace_all` on the placeholder rendering.
proof fn lemma_mask_replaces(syms: Seq<Sym>, es: Seq<EntryView>, j: int)
    requires
        syms_wf(syms, es),
        entries_reversible(es),
        0 <= j < es.len(),
    ensures
        render(mask_syms(syms, es[j].1, j), es, true) == replace_all(
            render(syms, es, true),
            es[j].1,
            es[j].0,
        ),
        syms_wf(mask_syms(syms, es[j].1, j), es),
    decreases syms.len(),
{
    let o = es[j].1;
    let p = es[j].0;
    let rm = render(syms, es, true);
    assert(o.len() > 0 && bracket_free(o));
    if syms.len() == 0 {
    } else if spells(syms, o) {
        let rest = syms.skip(o.len() as int);
        lemma_drop_wf(syms, es, o.len() as int);
        lemma_mask_replaces(rest, es, j);
        lemma_render_spelled(syms, o, es, true);
        let m = mask_syms(rest, o, j);
        assert((seq![tok(j)] + m).drop_first() == m);
        assert(rm.subrange(0, o.len() as int) == o);
        assert(rm.subrange(o.len() as int, rm.len() as int) == render(rest, es, true));
        assert forall|k: int| 0 <= k < (seq![tok(j)] + m).len() implies (#[trigger] (seq![tok(j)]
            + m)[k] == ch((seq![tok(j)] + m)[k].1)) || ((seq![tok(j)] + m)[k] == tok((seq![tok(j)] + m)[k].2) && 0 <= (
        seq![tok(j)] + m)[k].2 < es.len()) by {
            if k > 0 {
                assert((seq![tok(j)] + m)[k] == m[k - 1]);
            }
        }
    } else {
        let s0 = syms[0];
        let rest = syms.drop_first();
        lemma_drop_wf(syms, es, 1);
        assert(syms.skip(1) == rest);
        lemma_mask_replaces(rest, es, j);
        let m = mask_syms(rest, o, j);
        assert((seq![s0] + m).drop_first() == m);
        let head = sym_text(s0, es, true);
        let rr = render(rest, es, true);
        assert(rm == head + rr);
        // No occurrence of `o` starts inside the text of the first symbol.
        assert forall|q: int| 0 <= q < head.len() implies !occurs_at(rm, o, q) by {
            if occurs_at(rm, o, q) {
                if q == 0 {
                    lemma_starts_spells(syms, o, es);
                } else {
                    // q > 0 only for a placeholder
                    let ph = es[s0.2].0;
                    assert(placeholder_shaped(ph));
                    if q + o.len() <= head.len() {
                        assert(rm.subrange(q, q + o.len()) == ph.subrange(q, q + o.len()));
                        assert(occurs_at(ph, o, q));
                        assert(contains(ph, o));
                        assert(!contains(es[s0.2].0, es[j].1));
                    } else {
                        let idx = head.len() - 1 - q;
                        assert(rm.subrange(q, q + o.len())[idx] == rm[head.len() - 1]);
                        assert(rm[head.len() - 1] == ph.last());
                        assert(o[idx] == ']');
                    }
                }
            }
        }
        lemma_replace_skip(rm, o, p, head.len() as int);
        assert(rm.take(head.len() as int) == head);
        assert(rm.skip(head.len() as int) == rr);
        assert forall|k: int| 0 <= k < (seq![s0] + m).len() implies (#[trigger] (seq![s0] + m)[k]
            == ch((seq![s0] + m)[k].1)) || ((seq![s0] + m)[k] == tok((seq![s0] + m)[k].2) && 0 <= (seq![s0]
            + m)[k].2 < es.len()) by {
            if k > 0 {
                assert((seq![s0] + m)[k] == m[k - 1]);
            } else {
                assert(syms[0] == s0);
            }
        }
    }
}

/// Every reference to entry `j` becomes the characters of its original.
pub open spec fn unmask_syms(syms: Seq<Sym>, es: Seq<EntryView>, j: int) -> Seq<Sym>
    decreases syms.len(),
{
    if syms.len() == 0 {
        syms
    } else if syms[0] == tok(j) {
        chars_syms(es[j].1) + unmask_syms(syms.drop_first(), es, j)
    } else {
        seq![syms[0]] + unmask_syms(syms.drop_first(), es, j)
    }
}

/// Whether some symbol refers to entry `i`.
pub open spec fn refers_to(syms: Seq<Sym>, i: int) -> bool {
    exists|k: int| 0 <= k < syms.len() && syms[k] == tok(i)
}

proof fn lemma_unmask_props(syms: Seq<Sym>, es: Seq<EntryView>, j: int)
    requires
        syms_wf(syms, es),
        entries_reversible(es),
        0 <= j < es.len(),
        !contains(render(syms, es, false), es[j].0),
    ensures
        render(unmask_syms(syms, es, j), es, false) == render(syms, es, false),
        render(unmask_syms(syms, es, j), es, true) == replace_all(
            render(syms, es, true),
            es[j].0,
            es[j].1,
        ),
        syms_wf(unmask_syms(syms, es, j), es),
        forall|i: int| #[trigger] refers_to(unmask_syms(syms, es, j), i) ==> i != j,
        forall|i: int| #[trigger] refers_to(unmask_syms(syms, es, j), i) ==> refers_to(syms, i),
    decreases syms.len(),
{
    let p = es[j].0;
    let o = es[j].1;
    let rm = render(syms, es, true);
    assert(placeholder_shaped(p));
    if syms.len() == 0 {
        assert(rm.len() == 0);
        assert(replace_all(rm, p, o) == rm);
        assert(unmask_syms(syms, es, j) == syms);
        assert forall|i: int| #[trigger] refers_to(unmask_syms(syms, es, j), i) implies i != j && refers_to(
            syms,
            i,
        ) by {}
    } else {
        let s0 = syms[0];
        let rest = syms.drop_first();
        lemma_drop_wf(syms, es, 1);
        assert(syms.skip(1) == rest);
        assert(!contains(render(rest, es, false), p)) by {
            let ro = render(rest, es, false);
            let so = render(syms, es, false);
            let h = sym_text(s0, es, false);
            assert(so == h + ro);
            if contains(ro, p) {
                let q = choose|q: int| occurs_at(ro, p, q);
                assert(so.subrange(q + h.len(), q + h.len() + p.len()) =~= ro.subrange(q, q + p.len()));
                assert(occurs_at(so, p, q + h.len()));
            }
        }
        lemma_unmask_props(rest, es, j);
        let u = unmask_syms(rest, es, j);
        let head = sym_text(s0, es, true);
        let rr = render(rest, es, true);
        assert(rm == head + rr);
        if s0 == tok(j) {
            let cs = chars_syms(o);
            assert(unmask_syms(syms, es, j) == cs + u);
            lemma_render_chars(o, es, true);
            lemma_render_chars(o, es, false);
            lemma_render_concat(cs, u, es, true);
            lemma_render_concat(cs, u, es, false);
            assert(rm.subrange(0, p.len() as int) == p);
            assert(rm.subrange(p.len() as int, rm.len() as int) == rr);
            assert(bracket_free(o));
            assert forall|k: int| 0 <= k < (cs + u).len() implies (#[trigger] (cs + u)[k] == ch(
                (cs + u)[k].1,
            )) || ((cs + u)[k] == tok(
                (cs + u)[k].2,
            ) && 0 <= (cs + u)[k].2 < es.len()) by {
                if k >= cs.len() {
                    assert((cs + u)[k] == u[k - cs.len()]);
                } else {
                    assert((cs + u)[k] == ch(o[k]));
                }
            }
            assert forall|i: int| #[trigger] refers_to(unmask_syms(syms, es, j), i) implies i != j && refers_to(syms, i) by {
                assert(refers_to(cs + u, i));
                let k = choose|k: int| 0 <= k < (cs + u).len() && (cs + u)[k] == tok(i);
                if k < cs.len() {
                    assert((cs + u)[k] == ch(o[k]));
                } else {
                    assert(u[k - cs.len()] == tok(i));
                    assert(refers_to(u, i));
                    assert(refers_to(rest, i));
                    let k2 = choose|k2: int| 0 <= k2 < rest.len() && rest[k2] == tok(i);
                    assert(syms[k2 + 1] == tok(i));
                }
            }
        } else {
            // No occurrence of the placeholder starts inside the text of `s0`.
            assert forall|q: int| 0 <= q < head.len() implies !occurs_at(rm, p, q) by {
                if occurs_at(rm, p, q) {
                    assert(rm.subrange(q, q + p.len())[0] == p[0]);
                    if s0.0 {
                        // a placeholder starting at a character is spelled by characters,
                        // so the original rendering would hold it
                        assert(q == 0);
                        assert(rm.take(p.len() as int) =~= p);
                        lemma_spells_from_char(syms, p, es);
                        lemma_render_spelled(syms, p, es, false);
                        let so = render(syms, es, false);
                        assert(so.subrange(0, p.len() as int) =~= p);
                        assert(occurs_at(so, p, 0));
                    } else {
                        let pi = es[s0.2].0;
                        assert(placeholder_shaped(pi));
                        assert(s0.2 != j);
                        if q > 0 {
                            assert(rm[q] == pi[q]);
                        } else {
                            // both start at 0: the first `]` of each ends it
                            if p.len() <= pi.len() {
                                assert(rm.subrange(0, p.len() as int)[p.len() - 1] == pi[p.len() - 1]);
                                assert(p.len() == pi.len());
                                assert(p =~= pi) by {
                                    assert forall|k: int| 0 <= k < p.len() implies p[k] == pi[k] by {
                                        assert(rm.subrange(0, p.len() as int)[k] == pi[k]);
                                    }
                                }
                            } else {
                                assert(rm.subrange(0, p.len() as int)[pi.len() - 1] == pi[pi.len()
                                    - 1]);
                            }
                        }
                    }
                }
            }
            lemma_replace_skip(rm, p, o, head.len() as int);
            assert(rm.take(head.len() as int) == head);
            assert(rm.skip(head.len() as int) == rr);
            assert(unmask_syms(syms, es, j) == seq![s0] + u);
            lemma_render_concat(seq![s0], u, es, true);
            lemma_render_concat(seq![s0], u, es, false);
            assert(render(seq![s0], es, true) == head) by {
                assert(seq![s0].drop_first() =~= Seq::<Sym>::empty());
                assert(seq![s0][0] == s0);
                assert(render(Seq::<Sym>::empty(), es, true) == Seq::<char>::empty());
                assert(head + Seq::<char>::empty() == head);
            }
            assert(render(seq![s0], es, false) == sym_text(s0, es, false)) by {
                assert(seq![s0].drop_first() =~= Seq::<Sym>::empty());
                assert(seq![s0][0] == s0);
                assert(render(Seq::<Sym>::empty(), es, false) == Seq::<char>::empty());
                assert(sym_text(s0, es, false) + Seq::<char>::empty() == sym_text(s0, es, false));
            }
            assert forall|k: int| 0 <= k < (seq![s0] + u).len() implies (#[trigger] (seq![s0]
                + u)[k] == ch((seq![s0] + u)[k].1)) || ((seq![s0] + u)[k] == tok((seq![s0] + u)[k].2) && 0 <= (
            seq![s0] + u)[k].2 < es.len()) by {
                if k > 0 {
                    assert((seq![s0] + u)[k] == u[k - 1]);
                } else {
                    assert(syms[0] == s0);
                }
            }
            assert forall|i: int| #[trigger] refers_to(unmask_syms(syms, es, j), i) implies i != j && refers_to(syms, i) by {
                assert(refers_to(seq![s0] + u, i));
                let k = choose|k: int| 0 <= k < (seq![s0] + u).len() && (seq![s0] + u)[k] == tok(i);
                if k == 0 {
                    assert(syms[0] == tok(i));
                } else {
                    assert(u[k - 1] == tok(i));
                    assert(refers_to(u, i));
                    assert(refers_to(rest, i));
                    let k2 = choose|k2: int| 0 <= k2 < rest.len() && rest[k2] == tok(i);
                    assert(syms[k2 + 1] == tok(i));
                }
            }
        }
    }
}

/// Whether `x` is the (original, placeholder) pair of some entry.
pub open spec fn is_masking_pair(es: Seq<EntryView>, x: TextPair) -> bool {
    exists|j: int| 0 <= j < es.len() && x == (#[trigger] es[j].1, es[j].0)
}

/// Whether `x` is the (placeholder, original) pair of some entry.
pub open spec fn is_restoring_pair(es: Seq<EntryView>, x: TextPair) -> bool {
    exists|j: int| 0 <= j < es.len() && x == (#[trigger] es[j].0, es[j].1)
}

proof fn lemma_chars_wf(t: Seq<char>, es: Seq<EntryView>)
    ensures
        syms_wf(chars_syms(t), es),
        forall|i: int| !refers_to(chars_syms(t), i),
{
    assert forall|k: int| 0 <= k < chars_syms(t).len() implies (#[trigger] chars_syms(t)[k] == ch(
        chars_syms(t)[k].1,
    )) || (chars_syms(t)[k] == tok(chars_syms(t)[k].2) && 0 <= chars_syms(t)[k].2 < es.len()) by {
        assert(chars_syms(t)[k] == ch(t[k]));
    }
    assert forall|i: int| !refers_to(chars_syms(t), i) by {
        if refers_to(chars_syms(t), i) {
            let k = choose|k: int| 0 <= k < chars_syms(t).len() && chars_syms(t)[k] == tok(i);
            assert(chars_syms(t)[k] == ch(t[k]));
        }
    }
}

/// Without references both renderings are the same text.
proof fn lemma_no_refs_render(syms: Seq<Sym>, es: Seq<EntryView>)
    requires
        forall|i: int| !refers_to(syms, i),
        syms_wf(syms, es),
    ensures
        render(syms, es, true) == render(syms, es, false),
    decreases syms.len(),
{
    if syms.len() > 0 {
        let r = syms.drop_first();
        assert forall|i: int| !refers_to(r, i) by {
            if refers_to(r, i) {
                let k = choose|k: int| 0 <= k < r.len() && r[k] == tok(i);
                assert(syms[k + 1] == tok(i));
                assert(refers_to(syms, i));
            }
        }
        lemma_drop_wf(syms, es, 1);
        assert(syms.skip(1) == r);
        lemma_no_refs_render(r, es);
        if !syms[0].0 {
            assert(syms[0] == tok(syms[0].2));
            assert(refers_to(syms, syms[0].2));
        }
    }
}

/// Masking by any sequence of entry pairs keeps the original rendering and is
/// `replace_each` on the placeholder rendering.
proof fn lemma_mask_phase(text: Seq<char>, es: Seq<EntryView>, ps: Seq<TextPair>) -> (syms: Seq<Sym>)
    requires
        entries_reversible(es),
        forall|k: int| 0 <= k < ps.len() ==> is_masking_pair(es, #[trigger] ps[k]),
    ensures
        syms_wf(syms, es),
        render(syms, es, true) == replace_each(text, ps),
        render(syms, es, false) == text,
    decreases ps.len(),
{
    if ps.len() == 0 {
        lemma_chars_wf(text, es);
        lemma_render_chars(text, es, true);
        lemma_render_chars(text, es, false);
        chars_syms(text)
    } else {
        let prev = lemma_mask_phase(text, es, ps.drop_last());
        assert(is_masking_pair(es, ps[ps.len() - 1]));
        let j = choose|j: int| 0 <= j < es.len() && ps.last() == (#[trigger] es[j].1, es[j].0);
        lemma_mask_replaces(prev, es, j);
        lemma_mask_keeps_original(prev, es, j);
        mask_syms(prev, es[j].1, j)
    }
}

/// Restoring by any sequence of entry pairs keeps the original rendering, is
/// `replace_each` on the placeholder rendering, and leaves no reference to an entry
/// whose placeholder was restored.
proof fn lemma_restore_phase(syms0: Seq<Sym>, es: Seq<EntryView>, qs: Seq<TextPair>) -> (syms: Seq<Sym>)
    requires
        syms_wf(syms0, es),
        entries_reversible(es),
        forall|i: int| 0 <= i < es.len() ==> !contains(render(syms0, es, false), #[trigger] es[i].0),
        forall|k: int| 0 <= k < qs.len() ==> is_restoring_pair(es, #[trigger] qs[k]),
    ensures
        syms_wf(syms, es),
        render(syms, es, true) == replace_each(render(syms0, es, true), qs),
        render(syms, es, false) == render(syms0, es, false),
        forall|i: int, k: int|
            #![trigger refers_to(syms, i), qs[k]]
            refers_to(syms, i) && 0 <= k < qs.len() ==> qs[k].0 != es[i].0,
        forall|i: int| #[trigger] refers_to(syms, i) ==> 0 <= i < es.len(),
    decreases qs.len(),
{
    if qs.len() == 0 {
        assert forall|i: int| #[trigger] refers_to(syms0, i) implies 0 <= i < es.len() by {
            let k = choose|k: int| 0 <= k < syms0.len() && syms0[k] == tok(i);
            assert(syms0[k] == tok(i));
        }
        syms0
    } else {
        let prev = lemma_restore_phase(syms0, es, qs.drop_last());
        assert(is_restoring_pair(es, qs[qs.len() - 1]));
        let j = choose|j: int| 0 <= j < es.len() && qs.last() == (#[trigger] es[j].0, es[j].1);
        assert(!contains(render(prev, es, false), es[j].0));
        lemma_unmask_props(prev, es, j);
        let r = unmask_syms(prev, es, j);
        assert forall|i: int, k: int|
            #![trigger refers_to(r, i), qs[k]]
            refers_to(r, i) && 0 <= k < qs.len() implies qs[k].0 != es[i].0 by {
            assert(refers_to(prev, i));
            assert(i != j);
            if k < qs.len() - 1 {
                assert(qs.drop_last()[k] == qs[k]);
            } else {
                assert(0 <= i < es.len());
                assert(es[i].0 != es[j].0);
            }
        }
        assert forall|i: int| #[trigger] refers_to(r, i) implies 0 <= i < es.len() by {
            assert(refers_to(prev, i));
        }
        r
    }
}

proof fn lemma_insert_by_len_contains(s: Seq<TextPair>, x: TextPair, y: TextPair)
    ensures
        insert_by_len(s, x).contains(y) <==> (y == x || s.contains(y)),
    decreases s.len(),
{
    if s.len() > 0 && byte_len(s.last().0) < byte_len(x.0) {
        lemma_insert_by_len_contains(s.drop_last(), x, y);
        let t = insert_by_len(s.drop_last(), x);
        if s.contains(y) && y != x {
            let k = choose|k: int| 0 <= k < s.len() && s[k] == y;
            if k == s.len() - 1 {
                assert(t.push(s.last())[t.len() as int] == y);
            } else {
                assert(s.drop_last()[k] == y);
                let m = choose|m: int| 0 <= m < t.len() && t[m] == y;
                assert(t.push(s.last())[m] == y);
            }
        }
        if t.push(s.last()).contains(y) {
            let m = choose|m: int| 0 <= m < t.len() + 1 && t.push(s.last())[m] == y;
            if m < t.len() {
                assert(t[m] == y);
                if y != x {
                    let k = choose|k: int| 0 <= k < s.drop_last().len() && s.drop_last()[k] == y;
                    assert(s[k] == y);
                }
            } else {
                assert(s[s.len() - 1] == y);
            }
        }
        if y == x {
            let m = choose|m: int| 0 <= m < t.len() && t[m] == x;
            assert(t.push(s.last())[m] == x);
        }
    } else if s.len() > 0 {
        if s.push(x).contains(y) {
            let m = choose|m: int| 0 <= m < s.len() + 1 && s.push(x)[m] == y;
            if m < s.len() {
                assert(s[m] == y);
            }
        }
        if s.contains(y) {
            let k = choose|k: int| 0 <= k < s.len() && s[k] == y;
            assert(s.push(x)[k] == y);
        }
        assert(s.push(x)[s.len() as int] == x);
    } else {
        assert(seq![x][0] == x);
    }
}

/// Sorting by key length keeps exactly the same pairs.
pub proof fn lemma_sort_by_len_contains(l: Seq<TextPair>, y: TextPair)
    ensures
        sort_by_len_desc(l).contains(y) <==> l.contains(y),
    decreases l.len(),
{
    if l.len() > 0 {
        lemma_sort_by_len_contains(l.drop_last(), y);
        lemma_insert_by_len_contains(sort_by_len_desc(l.drop_last()), l.last(), y);
        if l.contains(y) && y != l.last() {
            let k = choose|k: int| 0 <= k < l.len() && l[k] == y;
            assert(l.drop_last()[k] == y);
        }
        if l.drop_last().contains(y) {
            let k = choose|k: int| 0 <= k < l.drop_last().len() && l.drop_last()[k] == y;
            assert(l[k] == y);
        }
        assert(l[l.len() - 1] == l.last());
    }
}

/// Restoring a masked text gives the text back, provided no placeholder of the map
/// occurs in the text and the entries are reversible: originals non-empty and
/// bracket-free, placeholders distinct and of the form `[..]`, and no original
/// inside a placeholder.
pub proof fn lemma_restore_inverts_mask(text: Seq<char>, es: Seq<EntryView>)
    requires
        forall|i: int| 0 <= i < es.len() ==> !contains(text, #[trigger] es[i].0),
        entries_reversible(es),
    ensures
        restore_result(restoring_pairs(es), masked_text(text, es)) == text,
{
    let ps = sort_by_len_desc(masking_pairs(es));
    assert forall|k: int| 0 <= k < ps.len() implies is_masking_pair(es, #[trigger] ps[k]) by {
        assert(ps.contains(ps[k]));
        lemma_sort_by_len_contains(masking_pairs(es), ps[k]);
        let m = choose|m: int| 0 <= m < masking_pairs(es).len() && masking_pairs(es)[m] == ps[k];
        assert(ps[k] == (es[m].1, es[m].0));
    }
    let syms1 = lemma_mask_phase(text, es, ps);
    let qs = sort_by_len_desc(restoring_pairs(es));
    assert forall|k: int| 0 <= k < qs.len() implies is_restoring_pair(es, #[trigger] qs[k]) by {
        assert(qs.contains(qs[k]));
        lemma_sort_by_len_contains(restoring_pairs(es), qs[k]);
        let m = choose|m: int|
            0 <= m < restoring_pairs(es).len() && restoring_pairs(es)[m] == qs[k];
        assert(qs[k] == (es[m].0, es[m].1));
    }
    let syms2 = lemma_restore_phase(syms1, es, qs);
    assert forall|i: int| !refers_to(syms2, i) by {
        if refers_to(syms2, i) {
            assert(0 <= i < es.len());
            assert(restoring_pairs(es)[i] == (es[i].0, es[i].1));
            lemma_sort_by_len_contains(restoring_pairs(es), (es[i].0, es[i].1));
            let k = choose|k: int| 0 <= k < qs.len() && qs[k] == (es[i].0, es[i].1);
            assert(qs[k].0 != es[i].0);
        }
    }
    lemma_no_refs_render(syms2, es);
}

/// Whether `c` is an ASCII decimal digit.
pub open spec fn is_digit(c: char) -> bool {
    '0' <= c && c <= '9'
}

proof fn lemma_decimal_digits(n: nat)
    ensures
        decimal(n).len() > 0,
        forall|i: int| 0 <= i < decimal(n).len() ==> is_digit(#[trigger] decimal(n)[i]),
        n >= 10 ==> decimal(n).len() >= 2,
    decreases n,
{
    if n >= 10 {
        lemma_decimal_digits(n / 10);
        let d = decimal(n / 10);
        assert forall|i: int| 0 <= i < decimal(n).len() implies is_digit(#[trigger] decimal(n)[i]) by {
            if i < d.len() {
                assert(decimal(n)[i] == d[i]);
            }
        }
    }
}

proof fn lemma_digit_char_injective(a: nat, b: nat)
    requires
        a < 10,
        b < 10,
        digit_char(a) == digit_char(b),
    ensures
        a == b,
{
}

/// Distinct numbers have distinct decimal notations.
pub proof fn lemma_decimal_injective(a: nat, b: nat)
    requires
        decimal(a) == decimal(b),
    ensures
        a == b,
    decreases a,
{
    lemma_decimal_digits(a);
    lemma_decimal_digits(b);
    if a < 10 && b < 10 {
        assert(decimal(a)[0] == digit_char(a));
        assert(decimal(b)[0] == digit_char(b));
        lemma_digit_char_injective(a, b);
    } else if a >= 10 && b >= 10 {
        let da = decimal(a);
        assert(da.drop_last() == decimal(a / 10));
        assert(decimal(b).drop_last() == decimal(b / 10));
        assert(da.last() == digit_char(a % 10));
        assert(decimal(b).last() == digit_char(b % 10));
        lemma_decimal_injective(a / 10, b / 10);
        lemma_digit_char_injective(a % 10, b % 10);
    } else {
        assert(decimal(a).len() != decimal(b).len());
    }
}

/// A placeholder determines its prefix and number, for prefixes without brackets.
pub proof fn lemma_placeholder_injective(p1: Seq<char>, n1: nat, p2: Seq<char>, n2: nat)
    requires
        placeholder_text(p1, n1) == placeholder_text(p2, n2),
    ensures
        p1 == p2,
        n1 == n2,
{
    let s1 = placeholder_text(p1, n1);
    let s2 = placeholder_text(p2, n2);
    lemma_decimal_digits(n1);
    lemma_decimal_digits(n2);
    let d1 = decimal(n1);
    let d2 = decimal(n2);
    // After its `_`, each placeholder holds only digits and the closing `]`.
    assert forall|i: int| p1.len() + 1 < i < s1.len() implies #[trigger] s1[i] != '_' by {
        if i < s1.len() - 1 {
            assert(s1[i] == d1[i - p1.len() - 2]);
        }
    }
    assert forall|i: int| p2.len() + 1 < i < s2.len() implies #[trigger] s2[i] != '_' by {
        if i < s2.len() - 1 {
            assert(s2[i] == d2[i - p2.len() - 2]);
        }
    }
    assert(s1[p1.len() + 1int] == '_');
    assert(s2[p2.len() + 1int] == '_');
    if p1.len() < p2.len() {
        assert(s1[p2.len() + 1int] != '_');
    } else if p2.len() < p1.len() {
        assert(s2[p1.len() + 1int] != '_');
    }
    assert(p1.len() == p2.len());
    assert(p1 =~= s1.subrange(1, p1.len() + 1int));
    assert(p2 =~= s2.subrange(1, p2.len() + 1int));
    assert(d1 =~= s1.subrange(p1.len() + 2int, s1.len() - 1int));
    assert(d2 =~= s2.subrange(p2.len() + 2int, s2.len() - 1int));
    lemma_decimal_injective(n1, n2);
}

proof fn lemma_placeholder_shaped(p: Seq<char>, n: nat)
    requires
        bracket_free(p),
    ensures
        placeholder_shaped(placeholder_text(p, n)),
{
    let s = placeholder_text(p, n);
    lemma_decimal_digits(n);
    assert forall|i: int| 1 <= i < s.len() - 1 implies #[trigger] s[i] != '[' && s[i] != ']' by {
        if i <= p.len() {
            assert(s[i] == p[i - 1]);
        } else if i > p.len() + 1 {
            assert(s[i] == decimal(n)[i - p.len() - 2]);
        }
    }
}

/// The k-th planned entry: its placeholder numbers it within its prefix.
pub proof fn lemma_planned_entry(us: Seq<MatchView>, k: int)
    requires
        0 <= k < us.len(),
    ensures
        planned_entries(us).len() == us.len(),
        planned_entries(us)[k].1 == us[k].0,
        planned_entries(us)[k].2 == prefix_of(us[k].3),
        planned_entries(us)[k].0 == placeholder_text(
            prefix_of(us[k].3),
            occurrences(entry_kinds(planned_entries(us)).take(k), prefix_of(us[k].3)) + 1,
        ),
    decreases us.len(),
{
    let es = planned_entries(us);
    let prev = planned_entries(us.drop_last());
    if k == us.len() - 1 {
        if us.len() > 1 {
            lemma_planned_entry(us.drop_last(), 0);
        }
        assert(entry_kinds(es).take(k) =~= entry_kinds(prev));
    } else {
        lemma_planned_entry(us.drop_last(), k);
        assert(es.drop_last() == prev);
        assert(entry_kinds(es).take(k) =~= entry_kinds(prev).take(k));
    }
}

proof fn lemma_occurrences_take(ks: Seq<Seq<char>>, a: int, b: int, p: Seq<char>)
    requires
        0 <= a < b <= ks.len(),
        ks[a] == p,
    ensures
        occurrences(ks.take(a), p) < occurrences(ks.take(b), p),
    decreases b - a,
{
    let t = ks.take(b);
    assert(t.drop_last() == ks.take(b - 1));
    if b == a + 1 {
        assert(t.last() == p);
    } else {
        lemma_occurrences_take(ks, a, b - 1, p);
    }
}

/// Planned entries have distinct placeholders.
pub proof fn lemma_planned_distinct(us: Seq<MatchView>, i: int, j: int)
    requires
        0 <= i < j < us.len(),
    ensures
        planned_entries(us)[i].0 != planned_entries(us)[j].0,
{
    let es = planned_entries(us);
    lemma_planned_entry(us, i);
    lemma_planned_entry(us, j);
    let pi = prefix_of(us[i].3);
    let pj = prefix_of(us[j].3);
    let ks = entry_kinds(es);
    if es[i].0 == es[j].0 {
        lemma_placeholder_injective(
            pi,
            occurrences(ks.take(i), pi) + 1,
            pj,
            occurrences(ks.take(j), pj) + 1,
        );
        assert(ks[i] == pi);
        lemma_occurrences_take(ks, i, j, pi);
    }
}

proof fn lemma_key_absent(l: Seq<TextPair>, k: Seq<char>)
    requires
        forall|i: int| 0 <= i < l.len() ==> #[trigger] l[i].0 != k,
    ensures
        key_pos(l, k) == -1,
    decreases l.len(),
{
    if l.len() > 0 {
        lemma_key_absent(l.drop_last(), k);
    }
}

/// With distinct placeholders the table holds exactly the entries' pairs, in order.
pub proof fn lemma_p2o_table(es: Seq<EntryView>)
    requires
        forall|i: int, j: int| 0 <= i < j < es.len() ==> es[i].0 != es[j].0,
    ensures
        p2o_table(es) == restoring_pairs(es),
    decreases es.len(),
{
    if es.len() > 0 {
        let prev = es.drop_last();
        lemma_p2o_table(prev);
        let rp = restoring_pairs(prev);
        assert forall|i: int| 0 <= i < rp.len() implies #[trigger] rp[i].0 != es.last().0 by {
            assert(es[i].0 != es[es.len() - 1].0);
        }
        lemma_key_absent(rp, es.last().0);
        assert(restoring_pairs(es) =~= rp.push((es.last().0, es.last().1)));
    }
}

/// Masking by `Tokenizer::tokenize` is undone by `TokenMap::restore` on the map it
/// returns, provided none of the placeholders occurs in the text, every finding's
/// text is non-empty and bracket-free, every kind prefix is bracket-free, and no
/// finding's text occurs inside a placeholder.
pub proof fn lemma_tokenize_reversible(us: Seq<MatchView>, text: Seq<char>)
    requires
        forall|i: int| 0 <= i < us.len() ==> !contains(text, #[trigger] planned_entries(us)[i].0),
        forall|k: int|
            0 <= k < us.len() ==> (#[trigger] us[k]).0.len() > 0 && bracket_free(us[k].0)
                && bracket_free(prefix_of(us[k].3)),
        forall|i: int, j: int|
            0 <= i < us.len() && 0 <= j < us.len() ==> !contains(
                #[trigger] planned_entries(us)[i].0,
                #[trigger] us[j].0,
            ),
    ensures
        restore_result(p2o_table(planned_entries(us)), masked_text(text, planned_entries(us)))
            == text,
{
    let es = planned_entries(us);
    if us.len() > 0 {
        lemma_planned_entry(us, 0);
    }
    assert forall|j: int| 0 <= j < es.len() implies (#[trigger] es[j]).1.len() > 0 && bracket_free(
        es[j].1,
    ) by {
        lemma_planned_entry(us, j);
        assert(us[j].0.len() > 0);
    }
    assert forall|j: int| 0 <= j < es.len() implies placeholder_shaped(#[trigger] es[j].0) by {
        lemma_planned_entry(us, j);
        assert(bracket_free(prefix_of(us[j].3)));
        lemma_placeholder_shaped(
            prefix_of(us[j].3),
            occurrences(entry_kinds(es).take(j), prefix_of(us[j].3)) + 1,
        );
    }
    assert forall|i: int, j: int|
        0 <= i < es.len() && 0 <= j < es.len() && i != j implies es[i].0 != es[j].0 by {
        if i < j {
            lemma_planned_distinct(us, i, j);
        } else {
            lemma_planned_distinct(us, j, i);
        }
    }
    assert forall|i: int, j: int|
        0 <= i < es.len() && 0 <= j < es.len() implies !contains(
        #[trigger] es[i].0,
        #[trigger] es[j].1,
    ) by {
        lemma_planned_entry(us, j);
        assert(!contains(planned_entries(us)[i].0, us[j].0));
    }
    lemma_p2o_table(es);
    lemma_restore_inverts_mask(text, es);
}

/// The first findings have pairwise distinct texts: one placeholder per distinct text.
pub proof fn lemma_first_findings_distinct(ms: Seq<MatchView>)
    ensures
        forall|i: int, j: int|
            0 <= i < j < first_findings(ms).len() ==> first_findings(ms)[i].0 != first_findings(
                ms,
            )[j].0,
        forall|k: int| 0 <= k < ms.len() ==> has_original(first_findings(ms), #[trigger] ms[k].0),
    decreases ms.len(),
{
    if ms.len() > 0 {
        let prev = first_findings(ms.drop_last());
        lemma_first_findings_distinct(ms.drop_last());
        let f = first_findings(ms);
        assert forall|k: int| 0 <= k < ms.len() implies has_original(f, #[trigger] ms[k].0) by {
            if k < ms.len() - 1 {
                assert(ms.drop_last()[k] == ms[k]);
                assert(has_original(prev, ms.drop_last()[k].0));
                let m = choose|m: int| 0 <= m < prev.len() && prev[m].0 == ms[k].0;
                assert(f[m] == prev[m]);
            } else if !has_original(prev, ms.last().0) {
                assert(f[prev.len() as int] == ms.last());
            } else {
                let m = choose|m: int| 0 <= m < prev.len() && prev[m].0 == ms.last().0;
                assert(f[m] == prev[m]);
            }
        }
    }
}

proof fn lemma_first_findings_from(ms: Seq<MatchView>)
    ensures
        forall|i: int|
            0 <= i < first_findings(ms).len() ==> exists|k: int|
                0 <= k < ms.len() && #[trigger] first_findings(ms)[i] == ms[k],
    decreases ms.len(),
{
    if ms.len() > 0 {
        lemma_first_findings_from(ms.drop_last());
        let prev = first_findings(ms.drop_last());
        let f = first_findings(ms);
        assert forall|i: int| 0 <= i < f.len() implies exists|k: int|
            0 <= k < ms.len() && #[trigger] f[i] == ms[k] by {
            if i < prev.len() {
                assert(f[i] == prev[i]);
                let k = choose|k: int| 0 <= k < ms.drop_last().len() && prev[i] == ms.drop_last()[k];
                assert(ms.drop_last()[k] == ms[k]);
            } else {
                assert(f[i] == ms[ms.len() - 1]);
            }
        }
    }
}

/// The map that `Tokenizer::tokenize` makes of the findings `ms`: one entry per
/// distinct finding text, no two entries with the same text; every finding's
/// text has an entry and every entry is a finding's text, under that finding's
/// prefix; and the entries of each prefix are numbered 1, 2, ... in order, the
/// placeholder of an entry being `[p_n]` with `n` one more than the number of
/// earlier entries of its prefix.
#[verifier::spinoff_prover]
pub proof fn lemma_tokenize_entries(ms: Seq<MatchView>)
    ensures
        ({
            let es = planned_entries(first_findings(ms));
            &&& forall|i: int, j: int| 0 <= i < j < es.len() ==> es[i].1 != es[j].1
            &&& forall|k: int|
                0 <= k < ms.len() ==> exists|i: int| 0 <= i < es.len() && #[trigger] es[i].1 == (
                #[trigger] ms[k]).0
            &&& forall|i: int|
                0 <= i < es.len() ==> exists|k: int|
                    0 <= k < ms.len() && (#[trigger] es[i]).1 == (#[trigger] ms[k]).0 && es[i].2
                        == prefix_of(ms[k].3)
            &&& forall|i: int|
                0 <= i < es.len() ==> (#[trigger] es[i]).0 == placeholder_text(
                    es[i].2,
                    occurrences(entry_kinds(es).take(i), es[i].2) + 1,
                )
        }),
{
    let us = first_findings(ms);
    let es = planned_entries(us);
    if us.len() > 0 {
        lemma_planned_entry(us, 0);
    }
    assert(es.len() == us.len());
    assert forall|i: int, j: int| 0 <= i < j < es.len() implies es[i].1 != es[j].1 by {
        lemma_first_findings_distinct(ms);
        lemma_planned_entry(us, i);
        lemma_planned_entry(us, j);
    }
    assert forall|k: int| 0 <= k < ms.len() implies exists|i: int|
        0 <= i < es.len() && #[trigger] es[i].1 == (#[trigger] ms[k]).0 by {
        lemma_first_findings_distinct(ms);
        assert(has_original(us, ms[k].0));
        let i = choose|i: int| 0 <= i < us.len() && us[i].0 == ms[k].0;
        lemma_planned_entry(us, i);
    }
    assert forall|i: int| 0 <= i < es.len() implies exists|k: int|
        0 <= k < ms.len() && (#[trigger] es[i]).1 == (#[trigger] ms[k]).0 && es[i].2 == prefix_of(
            ms[k].3,
        ) by {
        lemma_first_findings_from(ms);
        lemma_planned_entry(us, i);
        let k = choose|k: int| 0 <= k < ms.len() && us[i] == ms[k];
        assert(es[i].1 == ms[k].0);
    }
    assert forall|i: int| 0 <= i < es.len() implies (#[trigger] es[i]).0 == placeholder_text(
        es[i].2,
        occurrences(entry_kinds(es).take(i), es[i].2) + 1,
    ) by {
        lemma_planned_entry(us, i);
    }
}

} // verus!
