//! A structured text form of a found result, chosen so that serializing
//! and re-parsing reproduce the mapping exactly, key order included.
//! Every string is length-prefixed (its character count in decimal, a
//! colon, then the characters), so no escaping is needed; lists and
//! mappings are count-prefixed; a one-letter tag tells the node shapes
//! apart.

use vstd::prelude::*;

use vstd::string::{StrSliceExecFns, StringExecFns};

use crate::dict::Dict;
use crate::model::{Value, ValueModel, ValueVariant, VariantModel};
use crate::text::{
    dec_digits, digit_char, find_char, lemma_dec_digits_shape, lemma_find_char, usize_to_dec,
};

verus! {

/// One rendered string: character count, `:`, the characters.
pub open spec fn render_str(t: Seq<char>) -> Seq<char> {
    dec_digits(t.len() as nat) + seq![':'] + t
}

/// A count prefix: the count, then `;`.
pub open spec fn render_count(n: nat) -> Seq<char> {
    dec_digits(n) + seq![';']
}

/// The strings of a list, one rendered after the other.
pub open spec fn render_strs(items: Seq<Seq<char>>) -> Seq<char>
    decreases items.len(),
{
    if items.len() == 0 {
        Seq::empty()
    } else {
        render_str(items[0]) + render_strs(items.drop_first())
    }
}

/// A leaf value: `U` and a string, or `L`, a count and the strings.
pub open spec fn render_value(v: ValueModel) -> Seq<char> {
    match v {
        ValueModel::Unique(s) => seq!['U'] + render_str(s),
        ValueModel::List(items) => seq!['L'] + render_count(items.len() as nat) + render_strs(
            items,
        ),
    }
}

/// The entries of an entry mapping, in their stored order.
pub open spec fn render_entries(m: Seq<(Seq<char>, ValueModel)>) -> Seq<char>
    decreases m.len(),
{
    if m.len() == 0 {
        Seq::empty()
    } else {
        render_str(m[0].0) + render_value(m[0].1) + render_entries(m.drop_first())
    }
}

/// An entry node: `S` and a string, `M`, a count and the entries, or
/// `V`, a count and the strings.
pub open spec fn render_variant(v: VariantModel) -> Seq<char> {
    match v {
        VariantModel::String(s) => seq!['S'] + render_str(s),
        VariantModel::Mapping(m) => seq!['M'] + render_count(m.len() as nat) + render_entries(m),
        VariantModel::List(items) => seq!['V'] + render_count(items.len() as nat) + render_strs(
            items,
        ),
    }
}

/// The nodes of a result mapping, in their stored order.
pub open spec fn render_nodes(m: Seq<(Seq<char>, VariantModel)>) -> Seq<char>
    decreases m.len(),
{
    if m.len() == 0 {
        Seq::empty()
    } else {
        render_str(m[0].0) + render_variant(m[0].1) + render_nodes(m.drop_first())
    }
}

/// A whole found result: `F`, a count, the keyed nodes.
pub open spec fn render_found(m: Seq<(Seq<char>, VariantModel)>) -> Seq<char> {
    seq!['F'] + render_count(m.len() as nat) + render_nodes(m)
}

/// The numeric value of a digit character.
pub open spec fn digit_val(c: char) -> nat {
    if c == '1' {
        1
    } else if c == '2' {
        2
    } else if c == '3' {
        3
    } else if c == '4' {
        4
    } else if c == '5' {
        5
    } else if c == '6' {
        6
    } else if c == '7' {
        7
    } else if c == '8' {
        8
    } else if c == '9' {
        9
    } else {
        0
    }
}

/// The number a digit sequence denotes, most significant digit first.
pub open spec fn val_of_digits(ds: Seq<char>) -> nat
    decreases ds.len(),
{
    if ds.len() == 0 {
        0
    } else {
        val_of_digits(ds.drop_last()) * 10 + digit_val(ds.last())
    }
}

/// Parses a number closed by the given delimiter: what it denotes and
/// the rest after the delimiter.
pub open spec fn p_num(s: Seq<char>, delim: char) -> Option<(nat, Seq<char>)> {
    match find_char(s, delim) {
        Option::None => Option::None,
        Option::Some(d) => Option::Some(
            (val_of_digits(s.subrange(0, d)), s.subrange(d + 1, s.len() as int)),
        ),
    }
}

/// Parses one length-prefixed string.
pub open spec fn p_str(s: Seq<char>) -> Option<(Seq<char>, Seq<char>)> {
    match p_num(s, ':') {
        Option::None => Option::None,
        Option::Some((n, r)) => if n <= r.len() {
            Option::Some((r.subrange(0, n as int), r.subrange(n as int, r.len() as int)))
        } else {
            Option::None
        },
    }
}

/// Parses `count` strings, one after the other.
pub open spec fn p_strs(s: Seq<char>, count: nat) -> Option<(Seq<Seq<char>>, Seq<char>)>
    decreases count,
{
    if count == 0 {
        Option::Some((Seq::empty(), s))
    } else {
        match p_str(s) {
            Option::None => Option::None,
            Option::Some((t, r)) => match p_strs(r, (count - 1) as nat) {
                Option::None => Option::None,
                Option::Some((ts, r2)) => Option::Some((seq![t] + ts, r2)),
            },
        }
    }
}

/// Parses one leaf value.
pub open spec fn p_value(s: Seq<char>) -> Option<(ValueModel, Seq<char>)> {
    if s.len() == 0 {
        Option::None
    } else if s[0] == 'U' {
        match p_str(s.drop_first()) {
            Option::None => Option::None,
            Option::Some((t, r)) => Option::Some((ValueModel::Unique(t), r)),
        }
    } else if s[0] == 'L' {
        match p_num(s.drop_first(), ';') {
            Option::None => Option::None,
            Option::Some((n, r)) => match p_strs(r, n) {
                Option::None => Option::None,
                Option::Some((ts, r2)) => Option::Some((ValueModel::List(ts), r2)),
            },
        }
    } else {
        Option::None
    }
}

/// Parses `count` key–value entries.
pub open spec fn p_entries(s: Seq<char>, count: nat) -> Option<
    (Seq<(Seq<char>, ValueModel)>, Seq<char>),
>
    decreases count,
{
    if count == 0 {
        Option::Some((Seq::empty(), s))
    } else {
        match p_str(s) {
            Option::None => Option::None,
            Option::Some((k, r)) => match p_value(r) {
                Option::None => Option::None,
                Option::Some((v, r2)) => match p_entries(r2, (count - 1) as nat) {
                    Option::None => Option::None,
                    Option::Some((es, r3)) => Option::Some((seq![(k, v)] + es, r3)),
                },
            },
        }
    }
}

/// Parses one entry node.
pub open spec fn p_variant(s: Seq<char>) -> Option<(VariantModel, Seq<char>)> {
    if s.len() == 0 {
        Option::None
    } else if s[0] == 'S' {
        match p_str(s.drop_first()) {
            Option::None => Option::None,
            Option::Some((t, r)) => Option::Some((VariantModel::String(t), r)),
        }
    } else if s[0] == 'M' {
        match p_num(s.drop_first(), ';') {
            Option::None => Option::None,
            Option::Some((n, r)) => match p_entries(r, n) {
                Option::None => Option::None,
                Option::Some((es, r2)) => Option::Some((VariantModel::Mapping(es), r2)),
            },
        }
    } else if s[0] == 'V' {
        match p_num(s.drop_first(), ';') {
            Option::None => Option::None,
            Option::Some((n, r)) => match p_strs(r, n) {
                Option::None => Option::None,
                Option::Some((ts, r2)) => Option::Some((VariantModel::List(ts), r2)),
            },
        }
    } else {
        Option::None
    }
}

/// Parses `count` keyed nodes.
pub open spec fn p_nodes(s: Seq<char>, count: nat) -> Option<
    (Seq<(Seq<char>, VariantModel)>, Seq<char>),
>
    decreases count,
{
    if count == 0 {
        Option::Some((Seq::empty(), s))
    } else {
        match p_str(s) {
            Option::None => Option::None,
            Option::Some((k, r)) => match p_variant(r) {
                Option::None => Option::None,
                Option::Some((v, r2)) => match p_nodes(r2, (count - 1) as nat) {
                    Option::None => Option::None,
                    Option::Some((es, r3)) => Option::Some((seq![(k, v)] + es, r3)),
                },
            },
        }
    }
}

/// Parses a whole found result.
pub open spec fn p_found(s: Seq<char>) -> Option<(Seq<(Seq<char>, VariantModel)>, Seq<char>)> {
    if s.len() == 0 || s[0] != 'F' {
        Option::None
    } else {
        match p_num(s.drop_first(), ';') {
            Option::None => Option::None,
            Option::Some((n, r)) => p_nodes(r, n),
        }
    }
}

} // verus!

verus! {

/// Every character of a decimal rendering is a digit.
proof fn lemma_dec_digits_are_digits(n: nat)
    ensures
        forall|i: int|
            0 <= i < dec_digits(n).len() ==> ('0' as int) <= (#[trigger] dec_digits(n)[i] as int)
                <= ('9' as int),
    decreases n,
{
    if n < 10 {
    } else {
        lemma_dec_digits_are_digits(n / 10);
        assert forall|i: int| 0 <= i < dec_digits(n).len() implies ('0' as int) <= (
        #[trigger] dec_digits(n)[i] as int) <= ('9' as int) by {
            if i < dec_digits(n / 10).len() {
                assert(dec_digits(n)[i] == dec_digits(n / 10)[i]);
            } else {
                assert(dec_digits(n)[i] == digit_char(n % 10));
            }
        }
    }
}

/// Reading back a decimal rendering gives the number.
proof fn lemma_val_of_dec(n: nat)
    ensures
        val_of_digits(dec_digits(n)) == n,
    decreases n,
{
    if n < 10 {
        assert(dec_digits(n).drop_last() =~= Seq::<char>::empty());
        assert(dec_digits(n).last() == digit_char(n));
        assert(digit_val(digit_char(n)) == n);
        assert(dec_digits(n).len() == 1);
        assert(val_of_digits(dec_digits(n)) == val_of_digits(dec_digits(n).drop_last()) * 10
            + digit_val(dec_digits(n).last()));
    } else {
        lemma_val_of_dec(n / 10);
        assert(dec_digits(n).drop_last() =~= dec_digits(n / 10));
        assert(dec_digits(n).last() == digit_char(n % 10));
        assert(digit_val(digit_char(n % 10)) == n % 10);
        assert(dec_digits(n).len() >= 1) by {
            lemma_dec_digits_shape(n);
        }
        assert(val_of_digits(dec_digits(n)) == val_of_digits(dec_digits(n).drop_last()) * 10
            + digit_val(dec_digits(n).last()));
        assert(n == (n / 10) * 10 + n % 10) by (nonlinear_arith);
    }
}

/// Parsing a rendered number followed by its delimiter gives the number
/// back and leaves exactly what followed.
proof fn lemma_rt_num(n: nat, delim: char, rest: Seq<char>)
    requires
        (delim as int) > ('9' as int),
    ensures
        p_num(dec_digits(n) + seq![delim] + rest, delim) == Option::Some((n, rest)),
{
    let ds = dec_digits(n);
    let s = ds + seq![delim] + rest;
    let d = ds.len() as int;
    lemma_dec_digits_are_digits(n);
    assert(s[d] == delim);
    assert forall|k: int| 0 <= k < d implies s[k] != delim by {
        assert(s[k] == ds[k]);
    }
    lemma_find_char(s, delim, d);
    assert(s.subrange(0, d) =~= ds);
    lemma_val_of_dec(n);
    assert(s.subrange(d + 1, s.len() as int) =~= rest);
}

/// Parsing a rendered string gives the string back.
proof fn lemma_rt_str(t: Seq<char>, rest: Seq<char>)
    ensures
        p_str(render_str(t) + rest) == Option::Some((t, rest)),
{
    let s = render_str(t) + rest;
    assert(s =~= dec_digits(t.len() as nat) + seq![':'] + (t + rest));
    lemma_rt_num(t.len() as nat, ':', t + rest);
    let r = t + rest;
    assert((t + rest).subrange(0, t.len() as int) =~= t);
    assert((t + rest).subrange(t.len() as int, r.len() as int) =~= rest);
}

/// Parsing rendered strings gives them back.
proof fn lemma_rt_strs(items: Seq<Seq<char>>, rest: Seq<char>)
    ensures
        p_strs(render_strs(items) + rest, items.len() as nat) == Option::Some((items, rest)),
    decreases items.len(),
{
    if items.len() == 0 {
        assert(render_strs(items) + rest =~= rest);
        assert(seq![] + rest =~= rest);
    } else {
        let t = items.drop_first();
        assert(render_strs(items) + rest =~= render_str(items[0]) + (render_strs(t) + rest));
        lemma_rt_str(items[0], render_strs(t) + rest);
        lemma_rt_strs(t, rest);
        assert(seq![items[0]] + t =~= items);
    }
}

/// Parsing a rendered leaf value gives it back.
proof fn lemma_rt_value(v: ValueModel, rest: Seq<char>)
    ensures
        p_value(render_value(v) + rest) == Option::Some((v, rest)),
{
    match v {
        ValueModel::Unique(t) => {
            let s = render_value(v) + rest;
            assert(s[0] == 'U');
            assert(s.drop_first() =~= render_str(t) + rest);
            lemma_rt_str(t, rest);
        },
        ValueModel::List(items) => {
            let s = render_value(v) + rest;
            assert(s[0] == 'L');
            assert(s.drop_first() =~= dec_digits(items.len() as nat) + seq![';'] + (render_strs(
                items,
            ) + rest));
            lemma_rt_num(items.len() as nat, ';', render_strs(items) + rest);
            lemma_rt_strs(items, rest);
        },
    }
}

/// Parsing rendered entries gives them back.
proof fn lemma_rt_entries(m: Seq<(Seq<char>, ValueModel)>, rest: Seq<char>)
    ensures
        p_entries(render_entries(m) + rest, m.len() as nat) == Option::Some((m, rest)),
    decreases m.len(),
{
    if m.len() == 0 {
        assert(render_entries(m) + rest =~= rest);
    } else {
        let t = m.drop_first();
        assert(render_entries(m) + rest =~= render_str(m[0].0) + (render_value(m[0].1)
            + (render_entries(t) + rest)));
        lemma_rt_str(m[0].0, render_value(m[0].1) + (render_entries(t) + rest));
        lemma_rt_value(m[0].1, render_entries(t) + rest);
        lemma_rt_entries(t, rest);
        assert(seq![(m[0].0, m[0].1)] + t =~= m);
    }
}

/// Parsing a rendered entry node gives it back.
proof fn lemma_rt_variant(v: VariantModel, rest: Seq<char>)
    ensures
        p_variant(render_variant(v) + rest) == Option::Some((v, rest)),
{
    match v {
        VariantModel::String(t) => {
            let s = render_variant(v) + rest;
            assert(s[0] == 'S');
            assert(s.drop_first() =~= render_str(t) + rest);
            lemma_rt_str(t, rest);
        },
        VariantModel::Mapping(m) => {
            let s = render_variant(v) + rest;
            assert(s[0] == 'M');
            assert(s.drop_first() =~= dec_digits(m.len() as nat) + seq![';'] + (render_entries(m)
                + rest));
            lemma_rt_num(m.len() as nat, ';', render_entries(m) + rest);
            lemma_rt_entries(m, rest);
        },
        VariantModel::List(items) => {
            let s = render_variant(v) + rest;
            assert(s[0] == 'V');
            assert(s.drop_first() =~= dec_digits(items.len() as nat) + seq![';'] + (render_strs(
                items,
            ) + rest));
            lemma_rt_num(items.len() as nat, ';', render_strs(items) + rest);
            lemma_rt_strs(items, rest);
        },
    }
}

/// Parsing rendered keyed nodes gives them back.
proof fn lemma_rt_nodes(m: Seq<(Seq<char>, VariantModel)>, rest: Seq<char>)
    ensures
        p_nodes(render_nodes(m) + rest, m.len() as nat) == Option::Some((m, rest)),
    decreases m.len(),
{
    if m.len() == 0 {
        assert(render_nodes(m) + rest =~= rest);
    } else {
        let t = m.drop_first();
        assert(render_nodes(m) + rest =~= render_str(m[0].0) + (render_variant(m[0].1)
            + (render_nodes(t) + rest)));
        lemma_rt_str(m[0].0, render_variant(m[0].1) + (render_nodes(t) + rest));
        lemma_rt_variant(m[0].1, render_nodes(t) + rest);
        lemma_rt_nodes(t, rest);
        assert(seq![(m[0].0, m[0].1)] + t =~= m);
    }
}

/// Serializing a found result and parsing the text back reproduces the
/// identical mapping — the same entries in the same order, so the
/// lexicographic key order survives the round trip.
pub proof fn lemma_round_trip(m: Seq<(Seq<char>, VariantModel)>)
    ensures
        p_found(render_found(m)) == Option::Some((m, Seq::<char>::empty())),
{
    let s = render_found(m);
    assert(s[0] == 'F');
    assert(s.drop_first() =~= dec_digits(m.len() as nat) + seq![';'] + (render_nodes(m)
        + Seq::<char>::empty()));
    lemma_rt_num(m.len() as nat, ';', render_nodes(m) + Seq::<char>::empty());
    assert(render_nodes(m) + Seq::<char>::empty() =~= render_nodes(m));
    lemma_rt_nodes(m, Seq::<char>::empty());
}

} // verus!

verus! {

/// Appends one rendered string.
fn append_str_render(out: &mut String, t: &str)
    ensures
        final(out)@ == old(out)@ + render_str(t@),
{
    let n: usize = t.unicode_len();
    let count = usize_to_dec(n);
    out.append(count.as_str());
    out.append(":");
    out.append(t);
    proof {
        reveal_strlit(":");
        assert(":"@ =~= seq![':']);
        assert(old(out)@ + dec_digits(t@.len() as nat) + ":"@ + t@ =~= old(out)@ + render_str(t@));
    }
}

/// Appends one count prefix.
fn append_count(out: &mut String, n: usize)
    ensures
        final(out)@ == old(out)@ + render_count(n as nat),
{
    let count = usize_to_dec(n);
    out.append(count.as_str());
    out.append(";");
    proof {
        reveal_strlit(";");
        assert(";"@ =~= seq![';']);
        assert(old(out)@ + dec_digits(n as nat) + ";"@ =~= old(out)@ + render_count(n as nat));
    }
}

/// Appends the rendered strings of a list.
fn append_strs(out: &mut String, items: &Vec<String>)
    ensures
        final(out)@ == old(out)@ + render_strs(items.deep_view()),
{
    let ghost d = items.deep_view();
    let n = items.len();
    let mut i: usize = 0;
    proof {
        assert(d.subrange(0, n as int) =~= d);
    }
    while i < n
        invariant
            n == items@.len(),
            n == d.len(),
            d == items.deep_view(),
            i <= n,
            out@ + render_strs(d.subrange(i as int, n as int)) == old(out)@ + render_strs(d),
        decreases n - i,
    {
        proof {
            assert(d.subrange(i as int, n as int)[0] == d[i as int]);
            assert(d.subrange(i as int, n as int).drop_first() =~= d.subrange(
                i as int + 1,
                n as int,
            ));
            assert(d[i as int] == items@[i as int]@);
        }
        let ghost before = out@;
        append_str_render(out, items[i].as_str());
        proof {
            assert(out@ + render_strs(d.subrange(i as int + 1, n as int)) =~= before + (render_str(
                d[i as int],
            ) + render_strs(d.subrange(i as int + 1, n as int))));
        }
        i = i + 1;
    }
    proof {
        assert(d.subrange(n as int, n as int) =~= Seq::<Seq<char>>::empty());
        assert(out@ + Seq::<char>::empty() =~= out@);
        assert(out@ =~= old(out)@ + render_strs(d));
    }
}

/// Appends one rendered leaf value.
fn append_value(out: &mut String, v: &Value)
    ensures
        final(out)@ == old(out)@ + render_value(v@),
{
    match v {
        Value::Unique(s) => {
            out.append("U");
            append_str_render(out, s.as_str());
            proof {
                reveal_strlit("U");
                assert("U"@ =~= seq!['U']);
                assert(old(out)@ + "U"@ + render_str(s@) =~= old(out)@ + render_value(v@));
            }
        },
        Value::List(items) => {
            out.append("L");
            append_count(out, items.len());
            append_strs(out, items);
            proof {
                reveal_strlit("L");
                assert("L"@ =~= seq!['L']);
                assert(old(out)@ + "L"@ + render_count(items@.len() as nat) + render_strs(
                    items.deep_view(),
                ) =~= old(out)@ + render_value(v@));
            }
        },
    }
}

/// Appends one rendered entry node.
fn append_variant(out: &mut String, v: &ValueVariant)
    ensures
        final(out)@ == old(out)@ + render_variant(v@),
{
    match v {
        ValueVariant::String(s) => {
            out.append("S");
            append_str_render(out, s.as_str());
            proof {
                reveal_strlit("S");
                assert("S"@ =~= seq!['S']);
                assert(old(out)@ + "S"@ + render_str(s@) =~= old(out)@ + render_variant(v@));
            }
        },
        ValueVariant::Mapping(em) => {
            out.append("M");
            append_count(out, em.len());
            let ghost d = em@;
            let n = em.len();
            let mut i: usize = 0;
            let ghost start = out@;
            proof {
                assert(d.subrange(0, n as int) =~= d);
            }
            while i < n
                invariant
                    n == d.len(),
                    d == em@,
                    i <= n,
                    out@ + render_entries(d.subrange(i as int, n as int)) == start
                        + render_entries(d),
                decreases n - i,
            {
                proof {
                    assert(d.subrange(i as int, n as int)[0] == d[i as int]);
                    assert(d.subrange(i as int, n as int).drop_first() =~= d.subrange(
                        i as int + 1,
                        n as int,
                    ));
                }
                let ghost before = out@;
                append_str_render(out, em.key_at(i).as_str());
                append_value(out, em.value_at(i));
                proof {
                    assert(out@ + render_entries(d.subrange(i as int + 1, n as int)) =~= before + (
                    render_str(d[i as int].0) + render_value(d[i as int].1) + render_entries(
                        d.subrange(i as int + 1, n as int),
                    )));
                }
                i = i + 1;
            }
            proof {
                assert(d.subrange(n as int, n as int) =~= Seq::<(Seq<char>, ValueModel)>::empty());
                assert(out@ + Seq::<char>::empty() =~= out@);
                reveal_strlit("M");
                assert("M"@ =~= seq!['M']);
                assert(start =~= old(out)@ + "M"@ + render_count(d.len() as nat));
                assert(out@ =~= old(out)@ + render_variant(v@));
            }
        },
        ValueVariant::List(items) => {
            out.append("V");
            append_count(out, items.len());
            append_strs(out, items);
            proof {
                reveal_strlit("V");
                assert("V"@ =~= seq!['V']);
                assert(old(out)@ + "V"@ + render_count(items@.len() as nat) + render_strs(
                    items.deep_view(),
                ) =~= old(out)@ + render_variant(v@));
            }
        },
    }
}

/// Serializes a found result into the structured text form, following
/// `render_found` exactly.
pub fn render_found_string(d: &Dict<ValueVariant>) -> (r: String)
    ensures
        r@ == render_found(d@),
{
    let mut out = String::new();
    out.append("F");
    append_count(&mut out, d.len());
    let ghost m = d@;
    let n = d.len();
    let mut i: usize = 0;
    let ghost start = out@;
    proof {
        assert(m.subrange(0, n as int) =~= m);
    }
    while i < n
        invariant
            n == m.len(),
            m == d@,
            i <= n,
            out@ + render_nodes(m.subrange(i as int, n as int)) == start + render_nodes(m),
        decreases n - i,
    {
        proof {
            assert(m.subrange(i as int, n as int)[0] == m[i as int]);
            assert(m.subrange(i as int, n as int).drop_first() =~= m.subrange(
                i as int + 1,
                n as int,
            ));
        }
        let ghost before = out@;
        append_str_render(&mut out, d.key_at(i).as_str());
        append_variant(&mut out, d.value_at(i));
        proof {
            assert(out@ + render_nodes(m.subrange(i as int + 1, n as int)) =~= before + (
            render_str(m[i as int].0) + render_variant(m[i as int].1) + render_nodes(
                m.subrange(i as int + 1, n as int),
            )));
        }
        i = i + 1;
    }
    proof {
        assert(m.subrange(n as int, n as int) =~= Seq::<(Seq<char>, VariantModel)>::empty());
        assert(out@ + Seq::<char>::empty() =~= out@);
        reveal_strlit("F");
        assert("F"@ =~= seq!['F']);
        assert(start =~= Seq::<char>::empty() + "F"@ + render_count(m.len() as nat));
        assert(out@ =~= render_found(m));
    }
    out
}

} // verus!

verus! {

/// Decides `digit_val`.
fn digit_val_exec(c: char) -> (r: usize)
    ensures
        r as nat == digit_val(c),
        r <= 9,
{
    if c == '1' {
        1
    } else if c == '2' {
        2
    } else if c == '3' {
        3
    } else if c == '4' {
        4
    } else if c == '5' {
        5
    } else if c == '6' {
        6
    } else if c == '7' {
        7
    } else if c == '8' {
        8
    } else if c == '9' {
        9
    } else {
        0
    }
}

/// A digit run's value only grows as more digits are read.
proof fn lemma_val_prefix_le(ds: Seq<char>, j: int)
    requires
        0 <= j <= ds.len(),
    ensures
        val_of_digits(ds.subrange(0, j)) <= val_of_digits(ds),
    decreases ds.len(),
{
    if j < ds.len() {
        assert(ds.drop_last().subrange(0, j) =~= ds.subrange(0, j));
        lemma_val_prefix_le(ds.drop_last(), j);
        assert(ds.drop_last() =~= ds.subrange(0, ds.len() - 1));
        assert(val_of_digits(ds) == val_of_digits(ds.drop_last()) * 10 + digit_val(ds.last()));
    } else {
        assert(ds.subrange(0, j) =~= ds);
    }
}

/// Parses one length-prefixed string, following `p_str` exactly.
fn parse_str<'a>(s: &'a str) -> (r: Option<(String, &'a str)>)
    ensures
        match (r, p_str(s@)) {
            (Option::Some(p), Option::Some(q)) => p.0@ == q.0 && p.1@ == q.1,
            (Option::None, Option::None) => true,
            _ => false,
        },
{
    let total: usize = s.unicode_len();
    match crate::text::str_find_char(s, ':') {
        Option::None => Option::None,
        Option::Some(d) => {
            proof {
                crate::text::lemma_find_char_in_bounds(s@, ':');
            }
            let rem: usize = total - (d + 1);
            let ghost ds = s@.subrange(0, d as int);
            let mut val: u128 = 0;
            let mut j: usize = 0;
            let mut too_big = false;
            while !too_big && j < d
                invariant
                    d < total,
                    total == s@.len(),
                    rem == total - (d + 1),
                    ds == s@.subrange(0, d as int),
                    j <= d,
                    !too_big ==> val == val_of_digits(s@.subrange(0, j as int)) && val
                        <= rem as u128,
                    too_big ==> val_of_digits(ds) > rem as nat,
                decreases d - j + (if too_big { 0int } else { 1int }),
            {
                let c = s.get_char(j);
                let dv = digit_val_exec(c);
                let next: u128 = val * 10 + dv as u128;
                proof {
                    assert(s@.subrange(0, j as int + 1).drop_last() =~= s@.subrange(0, j as int));
                    assert(s@.subrange(0, j as int + 1).last() == s@[j as int]);
                }
                if next > rem as u128 {
                    proof {
                        lemma_val_prefix_le(ds, j as int + 1);
                        assert(ds.subrange(0, j as int + 1) =~= s@.subrange(0, j as int + 1));
                    }
                    too_big = true;
                } else {
                    val = next;
                    j = j + 1;
                }
            }
            proof {
                if !too_big {
                    assert(s@.subrange(0, d as int) =~= ds);
                }
            }
            if too_big {
                Option::None
            } else {
                let n: usize = val as usize;
                proof {
                    assert(val <= rem as u128);
                    assert(n as nat == val_of_digits(ds));
                    assert(s@.subrange(d + 1, s@.len() as int).len() == rem);
                }
                let content = s.substring_char(d + 1, d + 1 + n).to_owned();
                let rest = s.substring_char(d + 1 + n, total);
                proof {
                    let q = s@.subrange(d + 1, s@.len() as int);
                    assert(q.subrange(0, n as int) =~= s@.subrange(d + 1, d + 1 + n));
                    assert(q.subrange(n as int, q.len() as int) =~= s@.subrange(
                        d + 1 + n,
                        total as int,
                    ));
                }
                Option::Some((content, rest))
            }
        },
    }
}

} // verus!

verus! {

/// A parsed string leaves a strictly shorter rest.
proof fn lemma_p_str_shrinks(s: Seq<char>)
    ensures
        match p_str(s) {
            Option::Some(p) => p.1.len() < s.len(),
            Option::None => true,
        },
{
    match find_char(s, ':') {
        Option::Some(d) => {
            crate::text::lemma_find_char_in_bounds(s, ':');
        },
        Option::None => {
        },
    }
}

/// A parsed leaf value leaves a strictly shorter rest.
proof fn lemma_p_value_shrinks(s: Seq<char>)
    ensures
        match p_value(s) {
            Option::Some(p) => p.1.len() < s.len(),
            Option::None => true,
        },
{
    if s.len() > 0 {
        if s[0] == 'U' {
            lemma_p_str_shrinks(s.drop_first());
        } else if s[0] == 'L' {
            match p_num(s.drop_first(), ';') {
                Option::Some((n, r)) => {
                    crate::text::lemma_find_char_in_bounds(s.drop_first(), ';');
                    lemma_p_strs_le(r, n);
                },
                Option::None => {
                },
            }
        }
    }
}

/// Parsing strings never lengthens the rest.
proof fn lemma_p_strs_le(s: Seq<char>, count: nat)
    ensures
        match p_strs(s, count) {
            Option::Some(p) => p.1.len() <= s.len(),
            Option::None => true,
        },
    decreases count,
{
    if count > 0 {
        lemma_p_str_shrinks(s);
        match p_str(s) {
            Option::Some((t, r)) => {
                lemma_p_strs_le(r, (count - 1) as nat);
            },
            Option::None => {
            },
        }
    }
}

/// More strings than characters cannot be parsed.
proof fn lemma_p_strs_overflow(s: Seq<char>, count: nat)
    requires
        count > s.len(),
    ensures
        p_strs(s, count) is None,
    decreases count,
{
    lemma_p_str_shrinks(s);
    match p_str(s) {
        Option::Some((t, r)) => {
            lemma_p_strs_overflow(r, (count - 1) as nat);
        },
        Option::None => {
        },
    }
}

/// More entries than characters cannot be parsed.
proof fn lemma_p_entries_overflow(s: Seq<char>, count: nat)
    requires
        count > s.len(),
    ensures
        p_entries(s, count) is None,
    decreases count,
{
    lemma_p_str_shrinks(s);
    match p_str(s) {
        Option::Some((k, r)) => {
            lemma_p_value_shrinks(r);
            match p_value(r) {
                Option::Some((v, r2)) => {
                    lemma_p_entries_overflow(r2, (count - 1) as nat);
                },
                Option::None => {
                },
            }
        },
        Option::None => {
        },
    }
}

/// A parsed entry node leaves a strictly shorter rest.
proof fn lemma_p_variant_shrinks(s: Seq<char>)
    ensures
        match p_variant(s) {
            Option::Some(p) => p.1.len() < s.len(),
            Option::None => true,
        },
{
    if s.len() > 0 {
        if s[0] == 'S' {
            lemma_p_str_shrinks(s.drop_first());
        } else if s[0] == 'M' {
            match p_num(s.drop_first(), ';') {
                Option::Some((n, r)) => {
                    crate::text::lemma_find_char_in_bounds(s.drop_first(), ';');
                    lemma_p_entries_le(r, n);
                },
                Option::None => {
                },
            }
        } else if s[0] == 'V' {
            match p_num(s.drop_first(), ';') {
                Option::Some((n, r)) => {
                    crate::text::lemma_find_char_in_bounds(s.drop_first(), ';');
                    lemma_p_strs_le(r, n);
                },
                Option::None => {
                },
            }
        }
    }
}

/// Parsing entries never lengthens the rest.
proof fn lemma_p_entries_le(s: Seq<char>, count: nat)
    ensures
        match p_entries(s, count) {
            Option::Some(p) => p.1.len() <= s.len(),
            Option::None => true,
        },
    decreases count,
{
    if count > 0 {
        lemma_p_str_shrinks(s);
        match p_str(s) {
            Option::Some((k, r)) => {
                lemma_p_value_shrinks(r);
                match p_value(r) {
                    Option::Some((v, r2)) => {
                        lemma_p_entries_le(r2, (count - 1) as nat);
                    },
                    Option::None => {
                    },
                }
            },
            Option::None => {
            },
        }
    }
}

/// More keyed nodes than characters cannot be parsed.
proof fn lemma_p_nodes_overflow(s: Seq<char>, count: nat)
    requires
        count > s.len(),
    ensures
        p_nodes(s, count) is None,
    decreases count,
{
    lemma_p_str_shrinks(s);
    match p_str(s) {
        Option::Some((k, r)) => {
            lemma_p_variant_shrinks(r);
            match p_variant(r) {
                Option::Some((v, r2)) => {
                    lemma_p_nodes_overflow(r2, (count - 1) as nat);
                },
                Option::None => {
                },
            }
        },
        Option::None => {
        },
    }
}

} // verus!

verus! {

/// Prefixes a parse of several strings with already-parsed ones.
spec fn cons_strs(pre: Seq<Seq<char>>, r: Option<(Seq<Seq<char>>, Seq<char>)>) -> Option<
    (Seq<Seq<char>>, Seq<char>),
> {
    match r {
        Option::None => Option::None,
        Option::Some(q) => Option::Some((pre + q.0, q.1)),
    }
}

/// Parses a count closed by `;`, refusing one larger than what follows
/// could ever satisfy.
fn parse_count<'a>(s: &'a str) -> (r: Option<(usize, &'a str)>)
    ensures
        match (r, p_num(s@, ';')) {
            (Option::Some(p), Option::Some(q)) => p.0 as nat == q.0 && p.1@ == q.1,
            (Option::None, Option::Some(q)) => q.0 > q.1.len(),
            (Option::None, Option::None) => true,
            _ => false,
        },
{
    let total: usize = s.unicode_len();
    match crate::text::str_find_char(s, ';') {
        Option::None => Option::None,
        Option::Some(d) => {
            proof {
                crate::text::lemma_find_char_in_bounds(s@, ';');
            }
            let rem: usize = total - (d + 1);
            let ghost ds = s@.subrange(0, d as int);
            let mut val: u128 = 0;
            let mut j: usize = 0;
            let mut too_big = false;
            while !too_big && j < d
                invariant
                    d < total,
                    total == s@.len(),
                    rem == total - (d + 1),
                    ds == s@.subrange(0, d as int),
                    j <= d,
                    !too_big ==> val == val_of_digits(s@.subrange(0, j as int)) && val
                        <= rem as u128,
                    too_big ==> val_of_digits(ds) > rem as nat,
                decreases d - j + (if too_big { 0int } else { 1int }),
            {
                let c = s.get_char(j);
                let dv = digit_val_exec(c);
                let next: u128 = val * 10 + dv as u128;
                proof {
                    assert(s@.subrange(0, j as int + 1).drop_last() =~= s@.subrange(0, j as int));
                    assert(s@.subrange(0, j as int + 1).last() == s@[j as int]);
                }
                if next > rem as u128 {
                    proof {
                        lemma_val_prefix_le(ds, j as int + 1);
                        assert(ds.subrange(0, j as int + 1) =~= s@.subrange(0, j as int + 1));
                    }
                    too_big = true;
                } else {
                    val = next;
                    j = j + 1;
                }
            }
            proof {
                assert(s@.subrange(d + 1, s@.len() as int).len() == rem);
            }
            if too_big {
                Option::None
            } else {
                proof {
                    assert(s@.subrange(0, d as int) =~= ds);
                }
                let rest = s.substring_char(d + 1, total);
                Option::Some((val as usize, rest))
            }
        },
    }
}

/// Parses `count` strings, following `p_strs` exactly.
fn parse_strs<'a>(s: &'a str, count: usize) -> (r: Option<(Vec<String>, &'a str)>)
    ensures
        match (r, p_strs(s@, count as nat)) {
            (Option::Some(p), Option::Some(q)) => p.0.deep_view() == q.0 && p.1@ == q.1,
            (Option::None, Option::None) => true,
            _ => false,
        },
{
    let mut acc: Vec<String> = Vec::new();
    let mut cur: &str = s;
    let mut k: usize = 0;
    proof {
        assert(acc.deep_view() =~= Seq::<Seq<char>>::empty());
        assert(cons_strs(acc.deep_view(), p_strs(cur@, count as nat)) == p_strs(
            s@,
            count as nat,
        )) by {
            match p_strs(s@, count as nat) {
                Option::Some(q) => {
                    assert(acc.deep_view() + q.0 =~= q.0);
                },
                Option::None => {
                },
            }
        }
    }
    while k < count
        invariant
            k <= count,
            p_strs(s@, count as nat) == cons_strs(
                acc.deep_view(),
                p_strs(cur@, (count - k) as nat),
            ),
        decreases count - k,
    {
        let ghost pre = acc.deep_view();
        match parse_str(cur) {
            Option::None => {
                return Option::None;
            },
            Option::Some((t, r2)) => {
                proof {
                    match p_strs(r2@, (count - k - 1) as nat) {
                        Option::Some(q) => {
                            assert(pre + (seq![t@] + q.0) =~= pre.push(t@) + q.0);
                        },
                        Option::None => {
                        },
                    }
                }
                acc.push(t);
                proof {
                    assert(acc.deep_view() =~= pre.push(acc@[acc@.len() - 1]@));
                }
                cur = r2;
                k = k + 1;
            },
        }
    }
    proof {
        assert(acc.deep_view() + Seq::<Seq<char>>::empty() =~= acc.deep_view());
    }
    Option::Some((acc, cur))
}

/// Parses one leaf value, following `p_value` exactly.
fn parse_value<'a>(s: &'a str) -> (r: Option<(Value, &'a str)>)
    ensures
        match (r, p_value(s@)) {
            (Option::Some(p), Option::Some(q)) => p.0@ == q.0 && p.1@ == q.1,
            (Option::None, Option::None) => true,
            _ => false,
        },
{
    if s.is_empty() {
        return Option::None;
    }
    let total: usize = s.unicode_len();
    let c = s.get_char(0);
    let tail = s.substring_char(1, total);
    proof {
        assert(tail@ =~= s@.drop_first());
    }
    if c == 'U' {
        match parse_str(tail) {
            Option::Some(p) => Option::Some((Value::Unique(p.0), p.1)),
            Option::None => Option::None,
        }
    } else if c == 'L' {
        match parse_count(tail) {
            Option::Some((n, r2)) => {
                match parse_strs(r2, n) {
                    Option::Some(p) => Option::Some((Value::List(p.0), p.1)),
                    Option::None => Option::None,
                }
            },
            Option::None => {
                proof {
                    match p_num(tail@, ';') {
                        Option::Some(q) => {
                            lemma_p_strs_overflow(q.1, q.0);
                        },
                        Option::None => {
                        },
                    }
                }
                Option::None
            },
        }
    } else {
        Option::None
    }
}

} // verus!

verus! {

/// The parsed shape of a plain pair vector of entry values.
pub open spec fn entry_pairs_view(v: Seq<(String, Value)>) -> Seq<(Seq<char>, ValueModel)> {
    Seq::new(v.len(), |i: int| (v[i].0@, v[i].1@))
}

/// The parsed shape of a plain pair vector of entry nodes.
pub open spec fn node_pairs_view(v: Seq<(String, ValueVariant)>) -> Seq<(Seq<char>, VariantModel)> {
    Seq::new(v.len(), |i: int| (v[i].0@, v[i].1@))
}

/// Prefixes a parse of several entries with already-parsed ones.
spec fn cons_entries(
    pre: Seq<(Seq<char>, ValueModel)>,
    r: Option<(Seq<(Seq<char>, ValueModel)>, Seq<char>)>,
) -> Option<(Seq<(Seq<char>, ValueModel)>, Seq<char>)> {
    match r {
        Option::None => Option::None,
        Option::Some(q) => Option::Some((pre + q.0, q.1)),
    }
}

/// Prefixes a parse of several keyed nodes with already-parsed ones.
spec fn cons_nodes(
    pre: Seq<(Seq<char>, VariantModel)>,
    r: Option<(Seq<(Seq<char>, VariantModel)>, Seq<char>)>,
) -> Option<(Seq<(Seq<char>, VariantModel)>, Seq<char>)> {
    match r {
        Option::None => Option::None,
        Option::Some(q) => Option::Some((pre + q.0, q.1)),
    }
}

/// Parses `count` key–value entries, following `p_entries` exactly.
fn parse_entries<'a>(s: &'a str, count: usize) -> (r: Option<(Vec<(String, Value)>, &'a str)>)
    ensures
        match (r, p_entries(s@, count as nat)) {
            (Option::Some(p), Option::Some(q)) => entry_pairs_view(p.0@) == q.0 && p.1@ == q.1,
            (Option::None, Option::None) => true,
            _ => false,
        },
{
    let mut acc: Vec<(String, Value)> = Vec::new();
    let mut cur: &str = s;
    let mut k: usize = 0;
    proof {
        assert(entry_pairs_view(acc@) =~= Seq::<(Seq<char>, ValueModel)>::empty());
        match p_entries(s@, count as nat) {
            Option::Some(q) => {
                assert(entry_pairs_view(acc@) + q.0 =~= q.0);
            },
            Option::None => {
            },
        }
    }
    while k < count
        invariant
            k <= count,
            p_entries(s@, count as nat) == cons_entries(
                entry_pairs_view(acc@),
                p_entries(cur@, (count - k) as nat),
            ),
        decreases count - k,
    {
        let ghost pre = entry_pairs_view(acc@);
        match parse_str(cur) {
            Option::None => {
                return Option::None;
            },
            Option::Some((key, r1)) => {
                match parse_value(r1) {
                    Option::None => {
                        return Option::None;
                    },
                    Option::Some((v, r2)) => {
                        proof {
                            match p_entries(r2@, (count - k - 1) as nat) {
                                Option::Some(q) => {
                                    assert(pre + (seq![(key@, v@)] + q.0) =~= pre.push((key@, v@))
                                        + q.0);
                                },
                                Option::None => {
                                },
                            }
                        }
                        acc.push((key, v));
                        proof {
                            assert(entry_pairs_view(acc@) =~= pre.push(
                                (acc@[acc@.len() - 1].0@, acc@[acc@.len() - 1].1@),
                            ));
                        }
                        cur = r2;
                        k = k + 1;
                    },
                }
            },
        }
    }
    proof {
        assert(entry_pairs_view(acc@) + Seq::<(Seq<char>, ValueModel)>::empty()
            =~= entry_pairs_view(acc@));
    }
    Option::Some((acc, cur))
}

/// Parses one entry node, following `p_variant` exactly.
fn parse_variant<'a>(s: &'a str) -> (r: Option<(ValueVariant, &'a str)>)
    ensures
        match (r, p_variant(s@)) {
            (Option::Some(p), Option::Some(q)) => p.0@ == q.0 && p.1@ == q.1,
            (Option::None, Option::None) => true,
            _ => false,
        },
{
    if s.is_empty() {
        return Option::None;
    }
    let total: usize = s.unicode_len();
    let c = s.get_char(0);
    let tail = s.substring_char(1, total);
    proof {
        assert(tail@ =~= s@.drop_first());
    }
    if c == 'S' {
        match parse_str(tail) {
            Option::Some(p) => Option::Some((ValueVariant::String(p.0), p.1)),
            Option::None => Option::None,
        }
    } else if c == 'M' {
        match parse_count(tail) {
            Option::Some((n, r2)) => {
                match parse_entries(r2, n) {
                    Option::Some((pairs, r3)) => {
                        let ghost pv = pairs@;
                        let d = Dict::from_pairs(pairs);
                        proof {
                            assert(d@ =~= entry_pairs_view(pv));
                        }
                        Option::Some((ValueVariant::Mapping(d), r3))
                    },
                    Option::None => Option::None,
                }
            },
            Option::None => {
                proof {
                    match p_num(tail@, ';') {
                        Option::Some(q) => {
                            lemma_p_entries_overflow(q.1, q.0);
                        },
                        Option::None => {
                        },
                    }
                }
                Option::None
            },
        }
    } else if c == 'V' {
        match parse_count(tail) {
            Option::Some((n, r2)) => {
                match parse_strs(r2, n) {
                    Option::Some(p) => Option::Some((ValueVariant::List(p.0), p.1)),
                    Option::None => Option::None,
                }
            },
            Option::None => {
                proof {
                    match p_num(tail@, ';') {
                        Option::Some(q) => {
                            lemma_p_strs_overflow(q.1, q.0);
                        },
                        Option::None => {
                        },
                    }
                }
                Option::None
            },
        }
    } else {
        Option::None
    }
}

} // verus!

verus! {

/// Parses `count` keyed nodes, following `p_nodes` exactly.
fn parse_nodes<'a>(s: &'a str, count: usize) -> (r: Option<
    (Vec<(String, ValueVariant)>, &'a str),
>)
    ensures
        match (r, p_nodes(s@, count as nat)) {
            (Option::Some(p), Option::Some(q)) => node_pairs_view(p.0@) == q.0 && p.1@ == q.1,
            (Option::None, Option::None) => true,
            _ => false,
        },
{
    let mut acc: Vec<(String, ValueVariant)> = Vec::new();
    let mut cur: &str = s;
    let mut k: usize = 0;
    proof {
        assert(node_pairs_view(acc@) =~= Seq::<(Seq<char>, VariantModel)>::empty());
        match p_nodes(s@, count as nat) {
            Option::Some(q) => {
                assert(node_pairs_view(acc@) + q.0 =~= q.0);
            },
            Option::None => {
            },
        }
    }
    while k < count
        invariant
            k <= count,
            p_nodes(s@, count as nat) == cons_nodes(
                node_pairs_view(acc@),
                p_nodes(cur@, (count - k) as nat),
            ),
        decreases count - k,
    {
        let ghost pre = node_pairs_view(acc@);
        match parse_str(cur) {
            Option::None => {
                return Option::None;
            },
            Option::Some((key, r1)) => {
                match parse_variant(r1) {
                    Option::None => {
                        return Option::None;
                    },
                    Option::Some((v, r2)) => {
                        proof {
                            match p_nodes(r2@, (count - k - 1) as nat) {
                                Option::Some(q) => {
                                    assert(pre + (seq![(key@, v@)] + q.0) =~= pre.push((key@, v@))
                                        + q.0);
                                },
                                Option::None => {
                                },
                            }
                        }
                        acc.push((key, v));
                        proof {
                            assert(node_pairs_view(acc@) =~= pre.push(
                                (acc@[acc@.len() - 1].0@, acc@[acc@.len() - 1].1@),
                            ));
                        }
                        cur = r2;
                        k = k + 1;
                    },
                }
            },
        }
    }
    proof {
        assert(node_pairs_view(acc@) + Seq::<(Seq<char>, VariantModel)>::empty()
            =~= node_pairs_view(acc@));
    }
    Option::Some((acc, cur))
}

/// Parses a whole serialized found result, following `p_found` exactly:
/// re-parsing what `render_found_string` produced reproduces the very
/// mapping it was given, entry order included.
pub fn parse_found_string<'a>(s: &'a str) -> (r: Option<(Dict<ValueVariant>, &'a str)>)
    ensures
        match (r, p_found(s@)) {
            (Option::Some(p), Option::Some(q)) => p.0@ == q.0 && p.1@ == q.1,
            (Option::None, Option::None) => true,
            _ => false,
        },
{
    if s.is_empty() {
        return Option::None;
    }
    let total: usize = s.unicode_len();
    let c = s.get_char(0);
    if c != 'F' {
        return Option::None;
    }
    let tail = s.substring_char(1, total);
    proof {
        assert(tail@ =~= s@.drop_first());
    }
    match parse_count(tail) {
        Option::Some((n, r2)) => {
            match parse_nodes(r2, n) {
                Option::Some((pairs, r3)) => {
                    let ghost pv = pairs@;
                    let d = Dict::from_pairs(pairs);
                    proof {
                        assert(d@ =~= node_pairs_view(pv));
                    }
                    Option::Some((d, r3))
                },
                Option::None => Option::None,
            }
        },
        Option::None => {
            proof {
                match p_num(tail@, ';') {
                    Option::Some(q) => {
                        lemma_p_nodes_overflow(q.1, q.0);
                    },
                    Option::None => {
                    },
                }
            }
            Option::None
        },
    }
}

} // verus!
