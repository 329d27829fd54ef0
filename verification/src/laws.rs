//! The general laws of the extraction: what holds of every input, stated
//! over the specification layer and proved once and for all.

use vstd::prelude::*;

use crate::builder::{
    also_see_key, base_url, first_empty_list, is_empty_list, spec_blocks, spec_paragraphs,
    spec_step, submissions_key, vease_also, vease_member, BuildState, PageState,
};
use crate::classify::{spec_classify, Role};
use crate::dict::{
    assoc_get, assoc_has, assoc_idx, assoc_insert, entries_sorted, lemma_assoc_insert_props,
    lemma_sorted_key_unique,
};
use crate::model::{OutcomeModel, ValueModel, VariantModel, WebScrapError};
use crate::page::{AnchorModel, BlockModel, PageModel, ParagraphModel};
use crate::search::{ambiguity_sentinel, notfound_sentinel, spec_search, spec_suggestion};
use crate::text::{
    contains_seq, dec_digits, find_char, lemma_dec_digits_injective, lemma_dec_digits_shape,
    lemma_find_char_first, lex_lt,
};

verus! {

/// The paragraph's style is present and classifies to the role.
pub open spec fn has_role(p: ParagraphModel, r: Role) -> bool {
    p.style matches Option::Some(s) && spec_classify(s) == r
}

/// When the container text carries the ambiguity phrase and the container
/// has an anchor with text, the outcome is the suggested word: the anchor
/// text cut before its first comma, so the word never contains a comma
/// nor anything that followed one in the source anchor.
pub proof fn lemma_ambiguity_decides(page: PageModel, t: Seq<char>)
    requires
        contains_seq(page.text, ambiguity_sentinel()),
        page.first_anchor_text == Option::Some(t),
    ensures
        spec_search(page) == Result::<OutcomeModel, WebScrapError>::Ok(
            OutcomeModel::Ambiguous(spec_suggestion(t)),
        ),
        !spec_suggestion(t).contains(','),
        match find_char(t, ',') {
            Option::Some(i) => spec_suggestion(t) == t.subrange(0, i),
            Option::None => spec_suggestion(t) == t,
        },
{
    lemma_find_char_first(t, ',');
    match find_char(t, ',') {
        Option::Some(i) => {
            let w = t.subrange(0, i);
            assert forall|k: int| 0 <= k < w.len() implies w[k] != ',' by {
                assert(w[k] == t[k]);
            }
            if w.contains(',') {
                let idx = choose|idx: int| 0 <= idx < w.len() && w[idx] == ',';
                assert(false);
            }
        },
        Option::None => {
        },
    }
}

/// When the container text carries the not-found phrase and not the
/// ambiguity phrase, the outcome is the not-found notice.
pub proof fn lemma_notfound_decides(page: PageModel)
    requires
        !contains_seq(page.text, ambiguity_sentinel()),
        contains_seq(page.text, notfound_sentinel()),
    ensures
        spec_search(page) == Result::<OutcomeModel, WebScrapError>::Ok(OutcomeModel::NotFound),
{
}

/// A meaning paragraph with no compound-form header anywhere before it in
/// the same block makes the whole block fail: the line is never silently
/// dropped.
pub proof fn lemma_meaning_without_header(ps: Seq<ParagraphModel>, st: BuildState, k: int)
    requires
        st.cursor is None,
        0 <= k < ps.len(),
        has_role(ps[k], Role::Meaning),
        forall|j: int| 0 <= j < k ==> !has_role(#[trigger] ps[j], Role::Header),
    ensures
        spec_paragraphs(ps, st) is Err,
    decreases k,
{
    if k == 0 {
    } else {
        match spec_step(ps[0], st) {
            Result::Err(e) => {
            },
            Result::Ok(st2) => {
                assert(st2.cursor is None);
                assert(ps.drop_first()[k - 1] == ps[k]);
                assert(forall|j: int|
                    0 <= j < k - 1 ==> ps.drop_first()[j] == ps[j + 1]);
                lemma_meaning_without_header(ps.drop_first(), st2, k - 1);
            },
        }
    }
}

/// What `first_empty_list` answers: the position it gives holds an empty
/// list and no earlier position does; when it gives none, no position
/// holds one.
pub proof fn lemma_first_empty_props(m: Seq<(Seq<char>, ValueModel)>)
    ensures
        match first_empty_list(m) {
            Option::Some(i) => 0 <= i < m.len() && is_empty_list(m[i].1) && forall|k: int|
                0 <= k < i ==> !is_empty_list((#[trigger] m[k]).1),
            Option::None => forall|k: int| 0 <= k < m.len() ==> !is_empty_list((#[trigger] m[k]).1),
        },
    decreases m.len(),
{
    if m.len() > 0 && !is_empty_list(m[0].1) {
        lemma_first_empty_props(m.drop_first());
        assert(forall|k: int| 0 <= k < m.len() - 1 ==> m.drop_first()[k] == m[k + 1]);
        match first_empty_list(m.drop_first()) {
            Option::Some(i0) => {
                assert(m[i0 + 1] == m.drop_first()[i0]);
                assert forall|k: int| 0 <= k < i0 + 1 implies !is_empty_list(
                    (#[trigger] m[k]).1,
                ) by {
                    if k > 0 {
                        assert(m[k] == m.drop_first()[k - 1]);
                    }
                }
            },
            Option::None => {
                assert forall|k: int| 0 <= k < m.len() implies !is_empty_list(
                    (#[trigger] m[k]).1,
                ) by {
                    if k > 0 {
                        assert(m[k] == m.drop_first()[k - 1]);
                    }
                }
            },
        }
    }
}

/// A same-entry link is routed to the first key whose value is an empty
/// list — the least such key in the lexicographic order, since the
/// entries are sorted — and every other entry is untouched.  When no
/// empty list is waiting, it becomes the entry-level "also see" slot.
pub proof fn lemma_entry_link_routing(
    p: ParagraphModel,
    a: AnchorModel,
    href: Seq<char>,
    st: BuildState,
)
    requires
        entries_sorted(st.entry),
        has_role(p, Role::EntryLink),
        p.anchor == Option::Some(a),
        a.href == Option::Some(href),
    ensures
        match spec_step(p, st) {
            Result::Ok(st2) => match first_empty_list(st.entry) {
                Option::Some(i) => 0 <= i < st.entry.len() && is_empty_list(st.entry[i].1) && (
                forall|j: int| 0 <= j < i ==> !is_empty_list((#[trigger] st.entry[j]).1)) && (
                forall|j: int|
                    i < j < st.entry.len() && is_empty_list((#[trigger] st.entry[j]).1) ==> lex_lt(
                        st.entry[i].0,
                        st.entry[j].0,
                    )) && st2.entry == st.entry.update(
                    i,
                    (
                        st.entry[i].0,
                        ValueModel::List(seq![vease_member(a.text, base_url() + href)]),
                    ),
                ),
                Option::None => (forall|j: int|
                    0 <= j < st.entry.len() ==> !is_empty_list((#[trigger] st.entry[j]).1))
                    && st2.entry == assoc_insert(
                    st.entry,
                    also_see_key(),
                    ValueModel::Unique(vease_also(a.text, base_url() + href)),
                ),
            },
            _ => false,
        },
{
    lemma_first_empty_props(st.entry);
}

/// One step keeps the entry mapping sorted.
pub proof fn lemma_step_sorted(p: ParagraphModel, st: BuildState)
    requires
        entries_sorted(st.entry),
    ensures
        match spec_step(p, st) {
            Result::Ok(st2) => entries_sorted(st2.entry),
            _ => true,
        },
{
    match p.style {
        Option::None => {
        },
        Option::Some(style) => {
            match spec_classify(style) {
                Role::Sense => {
                    match find_char(p.text, '.') {
                        Option::Some(i) => {
                            lemma_assoc_insert_props(
                                st.entry,
                                p.text.subrange(0, i),
                                ValueModel::Unique(
                                    crate::text::spec_trim_start(
                                        p.text.subrange(i + 1, p.text.len() as int),
                                    ),
                                ),
                            );
                        },
                        Option::None => {
                        },
                    }
                },
                Role::Header => {
                    lemma_assoc_insert_props(
                        st.entry,
                        p.text,
                        ValueModel::List(Seq::empty()),
                    );
                },
                Role::Meaning => {
                    match st.cursor {
                        Option::Some(ck) => {
                            if assoc_has(st.entry, ck) {
                                match assoc_get(st.entry, ck) {
                                    ValueModel::List(items) => {
                                        let i = assoc_idx(st.entry, ck);
                                        let r = st.entry.update(
                                            i,
                                            (ck, ValueModel::List(items.push(p.text))),
                                        );
                                        assert(st.entry[i].0 == ck);
                                        assert forall|x: int, y: int|
                                            0 <= x < y < r.len() implies lex_lt(
                                            (#[trigger] r[x]).0,
                                            (#[trigger] r[y]).0,
                                        ) by {
                                            assert(r[x].0 == st.entry[x].0);
                                            assert(r[y].0 == st.entry[y].0);
                                        }
                                    },
                                    _ => {
                                    },
                                }
                            }
                        },
                        Option::None => {
                        },
                    }
                },
                Role::EntryLink => {
                    match p.anchor {
                        Option::Some(a) => {
                            match a.href {
                                Option::Some(href) => {
                                    match first_empty_list(st.entry) {
                                        Option::Some(i) => {
                                            lemma_first_empty_props(st.entry);
                                            let url = base_url() + href;
                                            let r = st.entry.update(
                                                i,
                                                (
                                                    st.entry[i].0,
                                                    ValueModel::List(
                                                        seq![vease_member(a.text, url)],
                                                    ),
                                                ),
                                            );
                                            assert forall|x: int, y: int|
                                                0 <= x < y < r.len() implies lex_lt(
                                                (#[trigger] r[x]).0,
                                                (#[trigger] r[y]).0,
                                            ) by {
                                                assert(r[x].0 == st.entry[x].0);
                                                assert(r[y].0 == st.entry[y].0);
                                            }
                                        },
                                        Option::None => {
                                            lemma_assoc_insert_props(
                                                st.entry,
                                                also_see_key(),
                                                ValueModel::Unique(
                                                    vease_also(a.text, base_url() + href),
                                                ),
                                            );
                                        },
                                    }
                                },
                                Option::None => {
                                },
                            }
                        },
                        Option::None => {
                        },
                    }
                },
                Role::OtherLink => {
                },
                Role::Unrecognized => {
                },
            }
        },
    }
}

/// The paragraph fold keeps the entry mapping sorted.
pub proof fn lemma_paragraphs_sorted(ps: Seq<ParagraphModel>, st: BuildState)
    requires
        entries_sorted(st.entry),
    ensures
        match spec_paragraphs(ps, st) {
            Result::Ok(st2) => entries_sorted(st2.entry),
            _ => true,
        },
    decreases ps.len(),
{
    if ps.len() > 0 {
        lemma_step_sorted(ps[0], st);
        match spec_step(ps[0], st) {
            Result::Ok(st2) => {
                lemma_paragraphs_sorted(ps.drop_first(), st2);
            },
            Result::Err(e) => {
            },
        }
    }
}

} // verus!

verus! {

/// The well-formed shape of a found result: the mapping is in strict
/// lexicographic key order, and so is every nested entry mapping.  This
/// is the ordering a serialization of the result must expose.
pub open spec fn found_wf(m: Seq<(Seq<char>, VariantModel)>) -> bool {
    entries_sorted(m) && forall|i: int|
        0 <= i < m.len() ==> ((#[trigger] m[i]).1 matches VariantModel::Mapping(em)
            ==> entries_sorted(em))
}

/// The block fold keeps the result mapping well formed.
pub proof fn lemma_blocks_wf(blocks: Seq<BlockModel>, pos: nat, st: PageState)
    requires
        found_wf(st.entries),
    ensures
        match spec_blocks(blocks, pos, st) {
            Result::Ok(out) => found_wf(out.entries),
            _ => true,
        },
    decreases blocks.len(),
{
    if blocks.len() > 0 {
        if blocks[0].leading_element {
            lemma_blocks_wf(blocks.drop_first(), pos + 1, st);
        } else {
            let st0 = BuildState {
                entry: Seq::empty(),
                cursor: Option::None,
                envios: st.envios,
            };
            match spec_paragraphs(blocks[0].paragraphs, st0) {
                Result::Err(e) => {
                },
                Result::Ok(bst) => {
                    lemma_paragraphs_sorted(blocks[0].paragraphs, st0);
                    let key = dec_digits(pos + 1);
                    let val = VariantModel::Mapping(bst.entry);
                    let m2 = assoc_insert(st.entries, key, val);
                    lemma_assoc_insert_props(st.entries, key, val);
                    crate::dict::lemma_assoc_insert_values(st.entries, key, val);
                    assert forall|i: int| 0 <= i < m2.len() implies ((#[trigger] m2[i]).1 matches
                        VariantModel::Mapping(em) ==> entries_sorted(em)) by {
                        if m2[i].1 != val {
                            let j = choose|j: int|
                                0 <= j < st.entries.len() && (#[trigger] st.entries[j]).1
                                    == m2[i].1;
                        }
                    }
                    lemma_blocks_wf(
                        blocks.drop_first(),
                        pos + 1,
                        PageState { entries: m2, envios: bst.envios },
                    );
                },
            }
        }
    }
}

/// The decimal key of a block is never the submissions key: it opens
/// with a digit.
pub proof fn lemma_dec_not_submissions(n: nat)
    ensures
        dec_digits(n) != submissions_key(),
{
    lemma_dec_digits_shape(n);
    if dec_digits(n) == submissions_key() {
        reveal_strlit("Envíos");
        assert(submissions_key()[0] == 'E');
        assert(false);
    }
}

/// A found result keeps its entries — and the entries of every nested
/// mapping — in strict lexicographic key order.
pub proof fn lemma_result_ordered(page: PageModel)
    ensures
        match spec_search(page) {
            Result::Ok(OutcomeModel::Found(m)) => found_wf(m),
            _ => true,
        },
{
    let st0 = PageState { entries: Seq::empty(), envios: Seq::empty() };
    assert(found_wf(st0.entries));
    lemma_blocks_wf(page.blocks, 0, st0);
    match spec_blocks(page.blocks, 0, st0) {
        Result::Ok(stf) => {
            if stf.envios.len() > 0 {
                let key = submissions_key();
                let val = VariantModel::List(stf.envios);
                lemma_assoc_insert_props(stf.entries, key, val);
                crate::dict::lemma_assoc_insert_values(stf.entries, key, val);
                let m2 = assoc_insert(stf.entries, key, val);
                assert forall|i: int| 0 <= i < m2.len() implies ((#[trigger] m2[i]).1 matches
                    VariantModel::Mapping(em) ==> entries_sorted(em)) by {
                    if m2[i].1 != val {
                        let j = choose|j: int|
                            0 <= j < stf.entries.len() && (#[trigger] stf.entries[j]).1 == m2[i].1;
                    }
                }
            }
        },
        Result::Err(e) => {
        },
    }
}

/// Which numeric keys the block fold creates: exactly one for each block
/// that is not skipped, numbered by its document-order position.
pub proof fn lemma_blocks_keys(blocks: Seq<BlockModel>, pos: nat, st: PageState, k: Seq<char>)
    requires
        entries_sorted(st.entries),
        spec_blocks(blocks, pos, st) is Ok,
    ensures
        match spec_blocks(blocks, pos, st) {
            Result::Ok(out) => entries_sorted(out.entries) && (assoc_has(out.entries, k) <==> (
            assoc_has(st.entries, k) || exists|j: int|
                0 <= j < blocks.len() && !(#[trigger] blocks[j]).leading_element && k == dec_digits(
                    (pos + j + 1) as nat,
                ))),
            _ => true,
        },
    decreases blocks.len(),
{
    if blocks.len() == 0 {
    } else {
        let t = blocks.drop_first();
        assert(forall|j: int| 0 <= j < t.len() ==> t[j] == blocks[j + 1]);
        if blocks[0].leading_element {
            lemma_blocks_keys(t, pos + 1, st, k);
            match spec_blocks(blocks, pos, st) {
                Result::Ok(out) => {
                    if exists|j: int|
                        0 <= j < t.len() && !(#[trigger] t[j]).leading_element && k == dec_digits(
                            (pos + 1 + j + 1) as nat,
                        ) {
                        let j0 = choose|j: int|
                            0 <= j < t.len() && !(#[trigger] t[j]).leading_element && k
                                == dec_digits((pos + 1 + j + 1) as nat);
                        assert(blocks[j0 + 1] == t[j0]);
                        assert(0 <= j0 + 1 < blocks.len() && !blocks[j0 + 1].leading_element && k
                            == dec_digits((pos + (j0 + 1) + 1) as nat));
                    }
                    if exists|j: int|
                        0 <= j < blocks.len() && !(#[trigger] blocks[j]).leading_element && k
                            == dec_digits((pos + j + 1) as nat) {
                        let j0 = choose|j: int|
                            0 <= j < blocks.len() && !(#[trigger] blocks[j]).leading_element && k
                                == dec_digits((pos + j + 1) as nat);
                        assert(j0 != 0);
                        assert(t[j0 - 1] == blocks[j0]);
                        assert(0 <= j0 - 1 < t.len() && !t[j0 - 1].leading_element && k
                            == dec_digits((pos + 1 + (j0 - 1) + 1) as nat));
                    }
                },
                Result::Err(e) => {
                },
            }
        } else {
            let st0 = BuildState {
                entry: Seq::empty(),
                cursor: Option::None,
                envios: st.envios,
            };
            match spec_paragraphs(blocks[0].paragraphs, st0) {
                Result::Err(e) => {
                },
                Result::Ok(bst) => {
                    let key0 = dec_digits(pos + 1);
                    let val0 = VariantModel::Mapping(bst.entry);
                    let m2 = assoc_insert(st.entries, key0, val0);
                    lemma_assoc_insert_props(st.entries, key0, val0);
                    let st2 = PageState { entries: m2, envios: bst.envios };
                    lemma_blocks_keys(t, pos + 1, st2, k);
                    match spec_blocks(blocks, pos, st) {
                        Result::Ok(out) => {
                            if assoc_has(out.entries, k) {
                                if !assoc_has(st.entries, k) {
                                    if k == key0 {
                                        assert(0 <= 0 < blocks.len()
                                            && !blocks[0].leading_element && k == dec_digits(
                                            (pos + 0 + 1) as nat,
                                        ));
                                    } else {
                                        let j0 = choose|j: int|
                                            0 <= j < t.len() && !(#[trigger] t[j]).leading_element
                                                && k == dec_digits((pos + 1 + j + 1) as nat);
                                        assert(blocks[j0 + 1] == t[j0]);
                                        assert(0 <= j0 + 1 < blocks.len() && !blocks[j0
                                            + 1].leading_element && k == dec_digits(
                                            (pos + (j0 + 1) + 1) as nat,
                                        ));
                                    }
                                }
                            }
                            if assoc_has(st.entries, k) {
                                assert(assoc_has(m2, k));
                            }
                            if exists|j: int|
                                0 <= j < blocks.len() && !(#[trigger] blocks[j]).leading_element
                                    && k == dec_digits((pos + j + 1) as nat) {
                                let j0 = choose|j: int|
                                    0 <= j < blocks.len()
                                        && !(#[trigger] blocks[j]).leading_element && k
                                        == dec_digits((pos + j + 1) as nat);
                                if j0 == 0 {
                                    assert(assoc_has(m2, k));
                                } else {
                                    assert(t[j0 - 1] == blocks[j0]);
                                    assert(0 <= j0 - 1 < t.len() && !t[j0 - 1].leading_element && k
                                        == dec_digits((pos + 1 + (j0 - 1) + 1) as nat));
                                }
                            }
                        },
                        Result::Err(e) => {
                        },
                    }
                },
            }
        }
    }
}

/// A skipped block's numeric key is absent from the result mapping, and
/// every block that is not skipped keeps its original document-order
/// number: a skipped block leaves a gap, nothing is renumbered.
pub proof fn lemma_block_numbering(page: PageModel, i: int)
    requires
        0 <= i < page.blocks.len(),
    ensures
        match spec_search(page) {
            Result::Ok(OutcomeModel::Found(m)) => assoc_has(m, dec_digits((i + 1) as nat))
                <==> !page.blocks[i].leading_element,
            _ => true,
        },
{
    match spec_search(page) {
        Result::Ok(OutcomeModel::Found(m)) => {
            let st0 = PageState { entries: Seq::empty(), envios: Seq::empty() };
            let key = dec_digits((i + 1) as nat);
            lemma_blocks_keys(page.blocks, 0, st0, key);
            match spec_blocks(page.blocks, 0, st0) {
                Result::Ok(stf) => {
                    if assoc_has(stf.entries, key) {
                        let j0 = choose|j: int|
                            0 <= j < page.blocks.len()
                                && !(#[trigger] page.blocks[j]).leading_element && key
                                == dec_digits((0 + j + 1) as nat);
                        lemma_dec_digits_injective((i + 1) as nat, (j0 + 1) as nat);
                    }
                    if !page.blocks[i].leading_element {
                        assert(0 <= i < page.blocks.len()
                            && !page.blocks[i].leading_element && key == dec_digits(
                            (0 + i + 1) as nat,
                        ));
                        assert(assoc_has(stf.entries, key));
                    }
                    if stf.envios.len() > 0 {
                        lemma_dec_not_submissions((i + 1) as nat);
                        lemma_assoc_insert_props(
                            stf.entries,
                            submissions_key(),
                            VariantModel::List(stf.envios),
                        );
                    }
                },
                Result::Err(e) => {
                },
            }
        },
        _ => {
        },
    }
}

} // verus!

verus! {

/// Folding a run of meaning paragraphs from a state whose cursor points
/// at a key carrying a list appends exactly their texts, in document
/// order, to that list.
proof fn lemma_meanings_extend(
    ps: Seq<ParagraphModel>,
    st: BuildState,
    h: Seq<char>,
    acc: Seq<Seq<char>>,
)
    requires
        entries_sorted(st.entry),
        st.cursor == Option::Some(h),
        assoc_has(st.entry, h),
        assoc_get(st.entry, h) == ValueModel::List(acc),
        forall|k: int| 0 <= k < ps.len() ==> has_role(#[trigger] ps[k], Role::Meaning),
    ensures
        match spec_paragraphs(ps, st) {
            Result::Ok(st2) => entries_sorted(st2.entry) && st2.cursor == st.cursor && st2.envios
                == st.envios && assoc_has(st2.entry, h) && assoc_get(st2.entry, h)
                == ValueModel::List(acc + Seq::new(ps.len() as nat, |k: int| ps[k].text)),
            _ => false,
        },
    decreases ps.len(),
{
    if ps.len() == 0 {
        assert(acc + Seq::new(0, |k: int| ps[k].text) =~= acc);
    } else {
        let i = assoc_idx(st.entry, h);
        assert(st.entry[i].0 == h);
        let st2 = BuildState {
            entry: st.entry.update(i, (h, ValueModel::List(acc.push(ps[0].text)))),
            cursor: st.cursor,
            envios: st.envios,
        };
        assert(spec_step(ps[0], st) == Result::<BuildState, WebScrapError>::Ok(st2));
        assert forall|x: int, y: int| 0 <= x < y < st2.entry.len() implies lex_lt(
            (#[trigger] st2.entry[x]).0,
            (#[trigger] st2.entry[y]).0,
        ) by {
            assert(st2.entry[x].0 == st.entry[x].0);
            assert(st2.entry[y].0 == st.entry[y].0);
        }
        assert(st2.entry[i].0 == h);
        assert(assoc_has(st2.entry, h));
        lemma_sorted_key_unique(st2.entry, assoc_idx(st2.entry, h), i);
        assert(assoc_get(st2.entry, h) == ValueModel::List(acc.push(ps[0].text)));
        let t = ps.drop_first();
        assert(forall|k: int| 0 <= k < t.len() ==> t[k] == ps[k + 1]);
        lemma_meanings_extend(t, st2, h, acc.push(ps[0].text));
        match spec_paragraphs(t, st2) {
            Result::Ok(stf) => {
                assert(acc.push(ps[0].text) + Seq::new(t.len() as nat, |k: int| t[k].text) =~= acc
                    + Seq::new(ps.len() as nat, |k: int| ps[k].text));
            },
            _ => {
            },
        }
    }
}

/// A compound-form header followed immediately by one or more meaning
/// paragraphs yields, at that header's key, a list holding exactly those
/// meaning texts in document order.
pub proof fn lemma_header_then_meanings(ps: Seq<ParagraphModel>, st: BuildState)
    requires
        entries_sorted(st.entry),
        ps.len() >= 1,
        has_role(ps[0], Role::Header),
        forall|k: int| 1 <= k < ps.len() ==> has_role(#[trigger] ps[k], Role::Meaning),
    ensures
        match spec_paragraphs(ps, st) {
            Result::Ok(st2) => entries_sorted(st2.entry) && st2.envios == st.envios && assoc_has(
                st2.entry,
                ps[0].text,
            ) && assoc_get(st2.entry, ps[0].text) == ValueModel::List(
                Seq::new((ps.len() - 1) as nat, |k: int| ps[k + 1].text),
            ),
            _ => false,
        },
{
    let h = ps[0].text;
    let e1 = assoc_insert(st.entry, h, ValueModel::List(Seq::empty()));
    let st1 = BuildState { entry: e1, cursor: Option::Some(h), envios: st.envios };
    assert(spec_step(ps[0], st) == Result::<BuildState, WebScrapError>::Ok(st1));
    lemma_assoc_insert_props(st.entry, h, ValueModel::List(Seq::empty()));
    let t = ps.drop_first();
    assert(forall|k: int| 0 <= k < t.len() ==> t[k] == ps[k + 1]);
    lemma_meanings_extend(t, st1, h, Seq::empty());
    match spec_paragraphs(t, st1) {
        Result::Ok(stf) => {
            assert(Seq::<Seq<char>>::empty() + Seq::new(t.len() as nat, |k: int| t[k].text)
                =~= Seq::new((ps.len() - 1) as nat, |k: int| ps[k + 1].text));
        },
        _ => {
        },
    }
}

} // verus!

verus! {

/// No node of the mapping is a bare string.
pub open spec fn no_bare_string(m: Seq<(Seq<char>, VariantModel)>) -> bool {
    forall|i: int| 0 <= i < m.len() ==> !((#[trigger] m[i]).1 is String)
}

/// The block fold creates no bare-string node.
proof fn lemma_blocks_no_bare_string(blocks: Seq<BlockModel>, pos: nat, st: PageState)
    requires
        entries_sorted(st.entries),
        no_bare_string(st.entries),
    ensures
        match spec_blocks(blocks, pos, st) {
            Result::Ok(out) => no_bare_string(out.entries),
            _ => true,
        },
    decreases blocks.len(),
{
    if blocks.len() > 0 {
        if blocks[0].leading_element {
            lemma_blocks_no_bare_string(blocks.drop_first(), pos + 1, st);
        } else {
            let st0 = BuildState {
                entry: Seq::empty(),
                cursor: Option::None,
                envios: st.envios,
            };
            match spec_paragraphs(blocks[0].paragraphs, st0) {
                Result::Err(e) => {
                },
                Result::Ok(bst) => {
                    let key = dec_digits(pos + 1);
                    let val = VariantModel::Mapping(bst.entry);
                    let m2 = assoc_insert(st.entries, key, val);
                    lemma_assoc_insert_props(st.entries, key, val);
                    crate::dict::lemma_assoc_insert_values(st.entries, key, val);
                    assert forall|i: int| 0 <= i < m2.len() implies !((#[trigger] m2[i]).1
                        is String) by {
                        if m2[i].1 != val {
                            let j = choose|j: int|
                                0 <= j < st.entries.len() && (#[trigger] st.entries[j]).1
                                    == m2[i].1;
                        }
                    }
                    lemma_blocks_no_bare_string(
                        blocks.drop_first(),
                        pos + 1,
                        PageState { entries: m2, envios: bst.envios },
                    );
                },
            }
        }
    }
}

/// The bare-string entry node — the slot an entry-level reference would
/// fall back to if an entry were ever still vacant — is never produced:
/// every entry slot is initialized as a mapping before its paragraphs
/// are processed, so a found result holds only mapping and list nodes.
pub proof fn lemma_no_bare_string_nodes(page: PageModel)
    ensures
        match spec_search(page) {
            Result::Ok(OutcomeModel::Found(m)) => no_bare_string(m),
            _ => true,
        },
{
    let st0 = PageState { entries: Seq::empty(), envios: Seq::empty() };
    lemma_blocks_no_bare_string(page.blocks, 0, st0);
    lemma_blocks_wf(page.blocks, 0, st0);
    match spec_blocks(page.blocks, 0, st0) {
        Result::Ok(stf) => {
            if stf.envios.len() > 0 {
                let key = submissions_key();
                let val = VariantModel::List(stf.envios);
                lemma_assoc_insert_props(stf.entries, key, val);
                crate::dict::lemma_assoc_insert_values(stf.entries, key, val);
                let m2 = assoc_insert(stf.entries, key, val);
                assert forall|i: int| 0 <= i < m2.len() implies !((#[trigger] m2[i]).1
                    is String) by {
                    if m2[i].1 != val {
                        let j = choose|j: int|
                            0 <= j < stf.entries.len() && (#[trigger] stf.entries[j]).1 == m2[i].1;
                    }
                }
            }
        },
        Result::Err(e) => {
        },
    }
}

} // verus!
