//! The entry tree builder: the stateful engine that folds an entry
//! block's paragraphs, in document order, into the nested result
//! structure.  The specification layer defines the transition of one
//! paragraph and the folds over paragraphs and blocks; the executable
//! layer is proved to follow them exactly.

use vstd::prelude::*;
use vstd::string::StringExecFns;

use crate::classify::{classify, spec_classify, Role};
use crate::dict::{assoc_get, assoc_has, assoc_idx, assoc_insert, Dict};
use crate::model::{Value, ValueModel, ValueVariant, VariantModel, WebScrapError};
use crate::page::{Block, BlockModel, Paragraph, ParagraphModel};
use crate::text::{
    dec_digits, find_char, lex_lt, spec_trim_start, split_at_first, trim_start, usize_to_dec,
};

verus! {

/// The site's base address: every `href` in the source markup is
/// site-relative and is resolved against it.
pub open spec fn base_url() -> Seq<char> {
    "https://dle.rae.es"@
}

/// The base address as a string.
pub fn base_url_string() -> (r: String)
    ensures
        r@ == base_url(),
{
    "https://dle.rae.es".to_owned()
}

/// The fixed key under which miscellaneous cross-reference addresses are
/// collected, shared by all entry blocks of one lookup.
pub open spec fn submissions_key() -> Seq<char> {
    "Envíos"@
}

/// The fixed key for an entry-level "also see" reference.
pub open spec fn also_see_key() -> Seq<char> {
    "Véase también"@
}

/// The line appended under a compound form for a same-entry link.  The
/// space before the closing parenthesis is part of the established
/// rendering and is kept.
pub open spec fn vease_member(text: Seq<char>, url: Seq<char>) -> Seq<char> {
    "Véase '"@ + text + "' ("@ + url + " )"@
}

/// Builds `vease_member`.
pub fn vease_member_string(text: &str, url: &str) -> (r: String)
    ensures
        r@ == vease_member(text@, url@),
{
    "Véase '".to_owned().concat(text).concat("' (").concat(url).concat(" )")
}

/// The value stored at the entry-level "also see" key.
pub open spec fn vease_also(text: Seq<char>, url: Seq<char>) -> Seq<char> {
    "'"@ + text + "' ("@ + url + ")"@
}

/// Builds `vease_also`.
pub fn vease_also_string(text: &str, url: &str) -> (r: String)
    ensures
        r@ == vease_also(text@, url@),
{
    "'".to_owned().concat(text).concat("' (").concat(url).concat(")")
}

/// The state carried from paragraph to paragraph inside one entry block:
/// the entry's own mapping, the current compound-form key (absent until a
/// header has been seen in this block), and the shared cross-reference
/// list, which outlives the block.
pub struct BuildState {
    pub entry: Seq<(Seq<char>, ValueModel)>,
    pub cursor: Option<Seq<char>>,
    pub envios: Seq<Seq<char>>,
}

/// An empty list value: the target that a same-entry link is routed to.
pub open spec fn is_empty_list(v: ValueModel) -> bool {
    v matches ValueModel::List(items) && items.len() == 0
}

/// The position of the first entry whose value is an empty list, in the
/// entry mapping's own (lexicographic) order.
pub open spec fn first_empty_list(m: Seq<(Seq<char>, ValueModel)>) -> Option<int>
    decreases m.len(),
{
    if m.len() == 0 {
        Option::None
    } else if is_empty_list(m[0].1) {
        Option::Some(0)
    } else {
        match first_empty_list(m.drop_first()) {
            Option::None => Option::None,
            Option::Some(i) => Option::Some(i + 1),
        }
    }
}

/// A position below which no value is an empty list decides
/// `first_empty_list`.
pub proof fn lemma_first_empty_list(m: Seq<(Seq<char>, ValueModel)>, i: int)
    requires
        0 <= i <= m.len(),
        forall|k: int| 0 <= k < i ==> !is_empty_list((#[trigger] m[k]).1),
    ensures
        i == m.len() ==> first_empty_list(m) is None,
        i < m.len() && is_empty_list(m[i].1) ==> first_empty_list(m) == Option::Some(i),
    decreases i,
{
    if i > 0 {
        assert(!is_empty_list(m[0].1));
        lemma_first_empty_list(m.drop_first(), i - 1);
        assert(forall|k: int| 0 <= k < i - 1 ==> m.drop_first()[k] == m[k + 1]);
        if i < m.len() {
            assert(m.drop_first()[i - 1] == m[i]);
        }
    }
}

/// The transition of one paragraph.  The roles act in their precedence
/// order; a missing style attribute, an unrecognized style, a sense
/// without its `.` separator, a meaning before any header, and a link
/// without anchor or `href` are structural violations.
pub open spec fn spec_step(p: ParagraphModel, st: BuildState) -> Result<
    BuildState,
    WebScrapError,
> {
    match p.style {
        Option::None => Result::Err(WebScrapError::MissingStyle),
        Option::Some(style) => match spec_classify(style) {
            Role::Sense => match find_char(p.text, '.') {
                Option::None => Result::Err(WebScrapError::MissingSeparator),
                Option::Some(i) => Result::Ok(
                    BuildState {
                        entry: assoc_insert(
                            st.entry,
                            p.text.subrange(0, i),
                            ValueModel::Unique(
                                spec_trim_start(p.text.subrange(i + 1, p.text.len() as int)),
                            ),
                        ),
                        cursor: st.cursor,
                        envios: st.envios,
                    },
                ),
            },
            Role::Header => Result::Ok(
                BuildState {
                    entry: assoc_insert(st.entry, p.text, ValueModel::List(Seq::empty())),
                    cursor: Option::Some(p.text),
                    envios: st.envios,
                },
            ),
            Role::Meaning => match st.cursor {
                Option::None => Result::Err(WebScrapError::MeaningWithoutHeader),
                Option::Some(ck) => if assoc_has(st.entry, ck) {
                    match assoc_get(st.entry, ck) {
                        ValueModel::List(items) => Result::Ok(
                            BuildState {
                                entry: st.entry.update(
                                    assoc_idx(st.entry, ck),
                                    (ck, ValueModel::List(items.push(p.text))),
                                ),
                                cursor: st.cursor,
                                envios: st.envios,
                            },
                        ),
                        // A sense overwrote the slot the cursor points at:
                        // there is no list to extend, and the line is let
                        // through unchanged.
                        _ => Result::Ok(st),
                    }
                } else {
                    Result::Ok(st)
                },
            },
            Role::EntryLink => match p.anchor {
                Option::None => Result::Err(WebScrapError::MissingAnchor),
                Option::Some(a) => match a.href {
                    Option::None => Result::Err(WebScrapError::MissingHref),
                    Option::Some(href) => {
                        let url = base_url() + href;
                        match first_empty_list(st.entry) {
                            Option::Some(i) => Result::Ok(
                                BuildState {
                                    entry: st.entry.update(
                                        i,
                                        (
                                            st.entry[i].0,
                                            ValueModel::List(
                                                seq![vease_member(a.text, url)],
                                            ),
                                        ),
                                    ),
                                    cursor: st.cursor,
                                    envios: st.envios,
                                },
                            ),
                            // No compound form is waiting for its first
                            // line: the link is an entry-level reference.
                            // Stripping the text of an empty superscript
                            // from the link text is the identity and
                            // leaves the text as it stands.
                            Option::None => Result::Ok(
                                BuildState {
                                    entry: assoc_insert(
                                        st.entry,
                                        also_see_key(),
                                        ValueModel::Unique(vease_also(a.text, url)),
                                    ),
                                    cursor: st.cursor,
                                    envios: st.envios,
                                },
                            ),
                        }
                    },
                },
            },
            Role::OtherLink => match p.anchor {
                Option::None => Result::Err(WebScrapError::MissingAnchor),
                Option::Some(a) => match a.href {
                    Option::None => Result::Err(WebScrapError::MissingHref),
                    Option::Some(href) => Result::Ok(
                        BuildState {
                            entry: st.entry,
                            cursor: st.cursor,
                            envios: st.envios.push(base_url() + href),
                        },
                    ),
                },
            },
            Role::Unrecognized => Result::Err(WebScrapError::UnknownStyle),
        },
    }
}

} // verus!

verus! {

/// Appends a line to the list value at position `i`; at another shape of
/// value there is nothing to extend and the map stays as it was.
fn push_line_at(entry: &mut Dict<Value>, i: usize, line: String)
    requires
        old(entry).wf(),
        i < old(entry)@.len(),
    ensures
        final(entry).wf(),
        match old(entry)@[i as int].1 {
            ValueModel::List(items) => final(entry)@ == old(entry)@.update(
                i as int,
                (old(entry)@[i as int].0, ValueModel::List(items.push(line@))),
            ),
            _ => final(entry)@ == old(entry)@,
        },
{
    let ghost m0 = entry@;
    let pair = entry.remove_at(i);
    proof {
        assert forall|k: int| 0 <= k < i implies lex_lt((#[trigger] entry@[k]).0, pair.0@) by {
            assert(entry@[k] == m0[k]);
        }
        assert forall|k: int| i <= k < entry@.len() implies lex_lt(
            pair.0@,
            (#[trigger] entry@[k]).0,
        ) by {
            assert(entry@[k] == m0[k + 1]);
        }
    }
    match pair.1 {
        Value::List(mut items) => {
            let ghost d0 = items.deep_view();
            items.push(line);
            proof {
                assert(items.deep_view() =~= d0.push(line@));
            }
            entry.insert_at(i, pair.0, Value::List(items));
            proof {
                assert(entry@ =~= m0.update(
                    i as int,
                    (m0[i as int].0, ValueModel::List(d0.push(line@))),
                ));
            }
        },
        other => {
            entry.insert_at(i, pair.0, other);
            proof {
                assert(entry@ =~= m0);
            }
        },
    }
}

/// Applies one paragraph to the builder state, following `spec_step`.
pub fn step_paragraph(
    p: &Paragraph,
    entry: &mut Dict<Value>,
    cursor: &mut Option<String>,
    envios: &mut Vec<String>,
) -> (r: Result<(), WebScrapError>)
    requires
        old(entry).wf(),
    ensures
        final(entry).wf(),
        match (r, spec_step(
            p@,
            BuildState {
                entry: old(entry)@,
                cursor: old(cursor).deep_view(),
                envios: old(envios).deep_view(),
            },
        )) {
            (Result::Ok(_), Result::Ok(st)) => final(entry)@ == st.entry
                && final(cursor).deep_view() == st.cursor
                && final(envios).deep_view() == st.envios,
            (Result::Err(e1), Result::Err(e2)) => e1 == e2 && final(entry)@ == old(entry)@
                && *final(cursor) == *old(cursor)
                && *final(envios) == *old(envios),
            _ => false,
        },
{
    let style_string = match &p.style {
        Option::Some(s) => s,
        Option::None => { return Result::Err(WebScrapError::MissingStyle) },
    };
    match classify(style_string.as_str()) {
        Role::Sense => {
            match split_at_first(p.text.as_str(), '.') {
                Option::None => Result::Err(WebScrapError::MissingSeparator),
                Option::Some(parts) => {
                    let def = trim_start(parts.1.as_str());
                    entry.insert(parts.0, Value::Unique(def));
                    Result::Ok(())
                },
            }
        },
        Role::Header => {
            let key = p.text.clone();
            *cursor = Option::Some(p.text.clone());
            let items: Vec<String> = Vec::new();
            proof {
                assert(items.deep_view() =~= Seq::<Seq<char>>::empty());
            }
            entry.insert(key, Value::List(items));
            Result::Ok(())
        },
        Role::Meaning => {
            match &*cursor {
                Option::None => Result::Err(WebScrapError::MeaningWithoutHeader),
                Option::Some(ck) => {
                    match entry.find_key(ck.as_str()) {
                        Option::None => Result::Ok(()),
                        Option::Some(i) => {
                            push_line_at(entry, i, p.text.clone());
                            Result::Ok(())
                        },
                    }
                },
            }
        },
        Role::EntryLink => {
            match &p.anchor {
                Option::None => Result::Err(WebScrapError::MissingAnchor),
                Option::Some(a) => {
                    match &a.href {
                        Option::None => Result::Err(WebScrapError::MissingHref),
                        Option::Some(href) => {
                            let url = base_url_string().concat(href.as_str());
                            let ghost m0 = entry@;
                            let n = entry.len();
                            let mut i: usize = 0;
                            let mut found = false;
                            while !found && i < n
                                invariant
                                    entry@ == m0,
                                    entry.wf(),
                                    n == m0.len(),
                                    i <= n,
                                    forall|k: int|
                                        0 <= k < i ==> !is_empty_list((#[trigger] m0[k]).1),
                                    found ==> i < n && is_empty_list(m0[i as int].1),
                                decreases n - i + (if found { 0int } else { 1int }),
                            {
                                let is_target = match entry.value_at(i) {
                                    Value::List(items) => items.is_empty(),
                                    _ => false,
                                };
                                if is_target {
                                    found = true;
                                } else {
                                    i = i + 1;
                                }
                            }
                            proof {
                                lemma_first_empty_list(m0, i as int);
                            }
                            if found {
                                // This link gives the waiting compound form
                                // its first and only line.
                                let line = vease_member_string(a.text.as_str(), url.as_str());
                                push_line_at(entry, i, line);
                                proof {
                                    assert(m0[i as int].1->List_0.push(line@) =~= seq![
                                        vease_member(a.text@, base_url() + href@),
                                    ]);
                                }
                                Result::Ok(())
                            } else {
                                // An entry-level reference.  The established
                                // behaviour strips the text of an empty
                                // superscript from the link text first;
                                // removing the empty string is the identity,
                                // so the text passes through unchanged on
                                // either branch.
                                let line =
                                    if a.sup_text.as_str().is_empty() {
                                    vease_also_string(a.text.as_str(), url.as_str())
                                } else {
                                    vease_also_string(a.text.as_str(), url.as_str())
                                };
                                entry.insert("Véase también".to_owned(), Value::Unique(line));
                                Result::Ok(())
                            }
                        },
                    }
                },
            }
        },
        Role::OtherLink => {
            match &p.anchor {
                Option::None => Result::Err(WebScrapError::MissingAnchor),
                Option::Some(a) => {
                    match &a.href {
                        Option::None => Result::Err(WebScrapError::MissingHref),
                        Option::Some(href) => {
                            let url = base_url_string().concat(href.as_str());
                            let ghost d0 = envios.deep_view();
                            envios.push(url);
                            proof {
                                assert(envios.deep_view() =~= d0.push(base_url() + href@));
                            }
                            Result::Ok(())
                        },
                    }
                },
            }
        },
        Role::Unrecognized => Result::Err(WebScrapError::UnknownStyle),
    }
}

} // verus!

verus! {

/// Folds a block's paragraphs, in document order, over `spec_step`,
/// stopping at the first structural violation.
pub open spec fn spec_paragraphs(ps: Seq<ParagraphModel>, st: BuildState) -> Result<
    BuildState,
    WebScrapError,
>
    decreases ps.len(),
{
    if ps.len() == 0 {
        Result::Ok(st)
    } else {
        match spec_step(ps[0], st) {
            Result::Err(e) => Result::Err(e),
            Result::Ok(st2) => spec_paragraphs(ps.drop_first(), st2),
        }
    }
}

/// The state carried from block to block: the result mapping built so
/// far and the shared cross-reference list.
pub struct PageState {
    pub entries: Seq<(Seq<char>, VariantModel)>,
    pub envios: Seq<Seq<char>>,
}

/// Folds the entry blocks.  `pos` blocks stand before `blocks` in the
/// full document-order sequence, so the head of `blocks` is numbered
/// `pos + 1`.  A block whose first child is a structural element is
/// skipped and leaves a gap in the numbering; every other block begins
/// with a fresh entry mapping and an unset cursor.
pub open spec fn spec_blocks(blocks: Seq<BlockModel>, pos: nat, st: PageState) -> Result<
    PageState,
    WebScrapError,
>
    decreases blocks.len(),
{
    if blocks.len() == 0 {
        Result::Ok(st)
    } else if blocks[0].leading_element {
        spec_blocks(blocks.drop_first(), pos + 1, st)
    } else {
        match spec_paragraphs(
            blocks[0].paragraphs,
            BuildState {
                entry: Seq::empty(),
                cursor: Option::None,
                envios: st.envios,
            },
        ) {
            Result::Err(e) => Result::Err(e),
            Result::Ok(bst) => spec_blocks(
                blocks.drop_first(),
                pos + 1,
                PageState {
                    entries: assoc_insert(
                        st.entries,
                        dec_digits(pos + 1),
                        VariantModel::Mapping(bst.entry),
                    ),
                    envios: bst.envios,
                },
            ),
        }
    }
}

/// The result mapping of the found path: the block fold started from an
/// empty state; the collected cross-reference list, when any address was
/// collected, stands under the fixed submissions key.
pub open spec fn spec_build(blocks: Seq<BlockModel>) -> Result<
    Seq<(Seq<char>, VariantModel)>,
    WebScrapError,
> {
    match spec_blocks(
        blocks,
        0,
        PageState { entries: Seq::empty(), envios: Seq::empty() },
    ) {
        Result::Err(e) => Result::Err(e),
        Result::Ok(st) => Result::Ok(
            if st.envios.len() == 0 {
                st.entries
            } else {
                assoc_insert(st.entries, submissions_key(), VariantModel::List(st.envios))
            },
        ),
    }
}

/// Processes one entry block: a fresh entry mapping, an unset cursor,
/// and its paragraphs folded in document order.
pub fn process_block(b: &Block, envios: &mut Vec<String>) -> (r: Result<
    Dict<Value>,
    WebScrapError,
>)
    ensures
        match (r, spec_paragraphs(
            b@.paragraphs,
            BuildState {
                entry: Seq::empty(),
                cursor: Option::None,
                envios: old(envios).deep_view(),
            },
        )) {
            (Result::Ok(em), Result::Ok(st)) => em.wf() && em@ == st.entry
                && final(envios).deep_view() == st.envios,
            (Result::Err(e1), Result::Err(e2)) => e1 == e2,
            _ => false,
        },
{
    let ghost ps = b@.paragraphs;
    let ghost st0 = BuildState {
        entry: Seq::empty(),
        cursor: Option::None,
        envios: envios.deep_view(),
    };
    let mut entry: Dict<Value> = Dict::new();
    let mut cursor: Option<String> = Option::None;
    let n = b.paragraphs.len();
    proof {
        assert(ps.subrange(0, n as int) =~= ps);
    }
    let mut j: usize = 0;
    while j < n
        invariant
            n == ps.len(),
            n == b.paragraphs.len(),
            ps == b@.paragraphs,
            st0 == (BuildState {
                entry: Seq::<(Seq<char>, ValueModel)>::empty(),
                cursor: Option::<Seq<char>>::None,
                envios: old(envios).deep_view(),
            }),
            j <= n,
            entry.wf(),
            spec_paragraphs(ps, st0) == spec_paragraphs(
                ps.subrange(j as int, n as int),
                BuildState {
                    entry: entry@,
                    cursor: cursor.deep_view(),
                    envios: envios.deep_view(),
                },
            ),
        decreases n - j,
    {
        let p = &b.paragraphs[j];
        proof {
            assert(ps.subrange(j as int, n as int)[0] == ps[j as int]);
            assert(ps[j as int] == p@);
            assert(ps.subrange(j as int, n as int).drop_first() =~= ps.subrange(
                j as int + 1,
                n as int,
            ));
        }
        let ghost stj = BuildState {
            entry: entry@,
            cursor: cursor.deep_view(),
            envios: envios.deep_view(),
        };
        match step_paragraph(p, &mut entry, &mut cursor, envios) {
            Result::Ok(_) => {
                j = j + 1;
            },
            Result::Err(e) => {
                proof {
                    assert(spec_step(p@, stj) == Result::<BuildState, WebScrapError>::Err(e));
                    assert(spec_paragraphs(ps.subrange(j as int, n as int), stj)
                        == Result::<BuildState, WebScrapError>::Err(e));
                }
                return Result::Err(e);
            },
        }
    }
    proof {
        assert(ps.subrange(n as int, n as int) =~= Seq::<ParagraphModel>::empty());
    }
    Result::Ok(entry)
}

/// Builds the result mapping from the ordered sequence of entry blocks,
/// following `spec_build`.
pub fn build_entries(blocks: &Vec<Block>) -> (r: Result<Dict<ValueVariant>, WebScrapError>)
    ensures
        match (r, spec_build(blocks.deep_view())) {
            (Result::Ok(d), Result::Ok(m)) => d.wf() && d@ == m,
            (Result::Err(e1), Result::Err(e2)) => e1 == e2,
            _ => false,
        },
{
    let ghost bs = blocks.deep_view();
    let ghost st0 = PageState { entries: Seq::empty(), envios: Seq::empty() };
    let mut dicc: Dict<ValueVariant> = Dict::new();
    let mut envios: Vec<String> = Vec::new();
    let n = blocks.len();
    proof {
        assert(bs.subrange(0, n as int) =~= bs);
        assert(envios.deep_view() =~= Seq::<Seq<char>>::empty());
    }
    let mut i: usize = 0;
    while i < n
        invariant
            n == bs.len(),
            n == blocks@.len(),
            bs == blocks.deep_view(),
            st0 == (PageState {
                entries: Seq::<(Seq<char>, VariantModel)>::empty(),
                envios: Seq::<Seq<char>>::empty(),
            }),
            i <= n,
            dicc.wf(),
            spec_blocks(bs, 0, st0) == spec_blocks(
                bs.subrange(i as int, n as int),
                i as nat,
                PageState { entries: dicc@, envios: envios.deep_view() },
            ),
        decreases n - i,
    {
        let b = &blocks[i];
        proof {
            assert(bs.subrange(i as int, n as int)[0] == bs[i as int]);
            assert(bs[i as int] == b@);
            assert(bs.subrange(i as int, n as int).drop_first() =~= bs.subrange(
                i as int + 1,
                n as int,
            ));
        }
        if b.leading_element {
            i = i + 1;
        } else {
            let ghost sti = PageState { entries: dicc@, envios: envios.deep_view() };
            match process_block(b, &mut envios) {
                Result::Err(e) => {
                    proof {
                        assert(spec_paragraphs(
                            b@.paragraphs,
                            BuildState {
                                entry: Seq::empty(),
                                cursor: Option::None,
                                envios: sti.envios,
                            },
                        ) == Result::<BuildState, WebScrapError>::Err(e));
                        assert(spec_blocks(bs.subrange(i as int, n as int), i as nat, sti)
                            == Result::<PageState, WebScrapError>::Err(e));
                    }
                    return Result::Err(e);
                },
                Result::Ok(em) => {
                    let key = usize_to_dec(i + 1);
                    dicc.insert(key, ValueVariant::Mapping(em));
                    i = i + 1;
                },
            }
        }
    }
    proof {
        assert(bs.subrange(n as int, n as int) =~= Seq::<BlockModel>::empty());
    }
    if envios.len() > 0 {
        dicc.insert("Envíos".to_owned(), ValueVariant::List(envios));
    }
    Result::Ok(dicc)
}

} // verus!
