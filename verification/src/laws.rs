//! The library's laws: properties of parsing, serializing and mapping
//! equality, stated and proved over the models.
use vstd::prelude::*;
use crate::data::{map_view_of, unique_keys, DataView, YAMLData};
use crate::data::{lemma_map_view_at, lemma_map_view_dom};
use crate::error::YAMLParseError;
use crate::parser::{
    blank_at, block_end, has_colon, is_seq_line, lemma_block_end_bounds,
    lemma_block_errors_invalid, spec_lines, spec_parse, spec_parse_block, spec_parse_step, GroupV,
    StV,
};
use crate::serializer::spec_serialize;
use crate::text::{find_char_from, lemma_find_char_from, lemma_trim_shape, trim_of};
use crate::text::{lemma_trim_nonempty_char, lemma_ws_prefix_end, lemma_ws_suffix_start};
use crate::parser::{has_content, item_end, lemma_item_end_bounds, finalize_frags};
use crate::parser::{spec_parse_map_entry, spec_parse_seq_item};
use crate::text::is_ws;

verus! {

/// A parse has exactly one outcome: a value or an error, never both.
pub proof fn lemma_parse_exactly_one(text: Seq<char>)
    ensures
        (spec_parse(text) is Ok) <==> !(spec_parse(text) is Err),
{
}

/// Text that trims to nothing, and only such text, fails with `EmptyInput`;
/// every structural failure on other text is `InvalidFormat`.
pub proof fn lemma_empty_input(text: Seq<char>)
    ensures
        (spec_parse(text) == Err::<DataView, YAMLParseError>(YAMLParseError::EmptyInput)) <==> trim_of(
            text,
        ).len() == 0,
        spec_parse(text) is Err ==> spec_parse(text) == Err::<DataView, YAMLParseError>(
            if trim_of(text).len() == 0 {
                YAMLParseError::EmptyInput
            } else {
                YAMLParseError::InvalidFormat
            },
        ),
{
    if trim_of(text).len() > 0 {
        lemma_block_errors_invalid(spec_lines(text));
    }
}

/// The scalar round trip: text without newlines or separators whose trimmed
/// form is non-empty and does not open a sequence marker parses to a scalar
/// holding exactly that trimmed form, and serializing the scalar returns it.
pub proof fn lemma_scalar_round_trip(text: Seq<char>)
    requires
        find_char_from(text, 0, '\n') == -1,
        find_char_from(text, 0, ':') == -1,
        trim_of(text).len() > 0,
        trim_of(text)[0] != '-',
    ensures
        spec_parse(text) == Ok::<DataView, YAMLParseError>(DataView::Scalar(trim_of(text))),
        spec_serialize(DataView::Scalar(trim_of(text))) == Ok::<Seq<char>, YAMLParseError>(
            trim_of(text),
        ),
{
    let ls = spec_lines(text);
    assert(ls == seq![text]);
    let t = trim_of(text);
    assert(ls[0] == text);
    assert(!blank_at(ls, 0));
    assert(!is_seq_line(t));
    lemma_find_char_from(text, 0, ':');
    lemma_trim_shape(text);
    if find_char_from(t, 0, ':') != -1 {
        lemma_find_char_from(t, 0, ':');
        let p = find_char_from(t, 0, ':');
        assert(t[p] == ':');
        let pe = crate::text::ws_prefix_end(text, 0);
        lemma_ws_prefix_end(text, 0);
        lemma_ws_suffix_start(text, text.len() as int);
        assert(trim_of(text)[p] == text[pe + p]);
        assert(0 <= pe + p < text.len());
        assert(text[pe + p] != ':');
        assert(false);
    }
    assert(!has_colon(t));
    let init = StV { frags: Seq::empty(), group: GroupV::Idle };
    let st2 = StV { frags: Seq::empty(), group: GroupV::InText(t) };
    assert(spec_parse_step(ls, 0, init) == spec_parse_step(ls, 1, st2));
    assert(spec_parse_step(ls, 1, st2) == Ok::<Seq<DataView>, YAMLParseError>(
        seq![DataView::Scalar(t)],
    ));
    assert(spec_parse_block(ls) == Ok::<DataView, YAMLParseError>(DataView::Scalar(t)));
}

/// A line indented no deeper than an open key's column always ends that key's
/// nested block, whatever the line holds: the block never reaches past the
/// first such line.
pub proof fn lemma_indentation_boundary(ls: Seq<Seq<char>>, i: int, c: int, k: int)
    requires
        0 <= i <= ls.len(),
        i <= k < ls.len(),
        !blank_at(ls, k),
        crate::text::indent_of(ls[k]) <= c,
    ensures
        block_end(ls, i, c) <= k,
{
    lemma_block_end_bounds(ls, i, c);
}

/// Whether some entry binds `k` to `v`.
pub open spec fn has_entry(es: Seq<(String, YAMLData)>, k: Seq<char>, v: DataView) -> bool {
    exists|i: int| 0 <= i < es.len() && es[i].0@ == k && es[i].1@ == v
}

/// Entry order does not exist in a mapping's model: two entry vectors with
/// unique keys that bind the same keys to the same values, in any order,
/// denote the same map, so `==` holds of the mappings built from them.
pub proof fn lemma_mapping_order_irrelevant(a: Seq<(String, YAMLData)>, b: Seq<(String, YAMLData)>)
    requires
        unique_keys(a),
        unique_keys(b),
        forall|k: Seq<char>, v: DataView| has_entry(a, k, v) <==> has_entry(b, k, v),
    ensures
        map_view_of(a) == map_view_of(b),
{
    assert forall|k: Seq<char>|
        map_view_of(a).dom().contains(k) == map_view_of(b).dom().contains(k) by {
        lemma_map_view_dom(a, k);
        lemma_map_view_dom(b, k);
        if map_view_of(a).contains_key(k) {
            let i = choose|i: int| 0 <= i < a.len() && a[i].0@ == k;
            assert(has_entry(a, k, a[i].1@));
            assert(has_entry(b, k, a[i].1@));
        }
        if map_view_of(b).contains_key(k) {
            let j = choose|j: int| 0 <= j < b.len() && b[j].0@ == k;
            assert(has_entry(b, k, b[j].1@));
            assert(has_entry(a, k, b[j].1@));
        }
    };
    assert(map_view_of(a).dom() =~= map_view_of(b).dom());
    assert forall|k: Seq<char>| map_view_of(a).dom().contains(k) implies map_view_of(a)[k]
        == map_view_of(b)[k] by {
        lemma_map_view_dom(a, k);
        let i = choose|i: int| 0 <= i < a.len() && a[i].0@ == k;
        lemma_map_view_at(a, i);
        assert(has_entry(a, k, a[i].1@));
        assert(has_entry(b, k, a[i].1@));
        let j = choose|j: int| 0 <= j < b.len() && b[j].0@ == k && b[j].1@ == a[i].1@;
        lemma_map_view_at(b, j);
    };
    assert(map_view_of(a) =~= map_view_of(b));
}

/// Non-blank text has a non-blank line.
pub proof fn lemma_lines_have_content(text: Seq<char>)
    requires
        trim_of(text).len() > 0,
    ensures
        has_content(spec_lines(text), 0, spec_lines(text).len() as int),
    decreases text.len(),
{
    let ls = spec_lines(text);
    let p = find_char_from(text, 0, '\n');
    lemma_trim_nonempty_char(text);
    let q = choose|q: int| 0 <= q < text.len() && !is_ws(text[q]);
    if p < 0 || p >= text.len() {
        assert(ls == seq![text]);
        assert(!blank_at(ls, 0));
    } else {
        lemma_find_char_from(text, 0, '\n');
        let pre = text.subrange(0, p);
        let post = text.subrange(p + 1, text.len() as int);
        assert(ls == seq![pre] + spec_lines(post));
        assert(text[p] == '\n' && is_ws(text[p]));
        if q < p {
            assert(pre[q] == text[q]);
            lemma_trim_nonempty_char(pre);
            assert(ls[0] == pre);
            assert(!blank_at(ls, 0));
        } else {
            assert(q > p);
            assert(post[q - p - 1] == text[q]);
            lemma_trim_nonempty_char(post);
            lemma_lines_have_content(post);
            let k = choose|k: int|
                0 <= k < spec_lines(post).len() && !blank_at(spec_lines(post), k);
            assert(ls[k + 1] == spec_lines(post)[k]);
            assert(!blank_at(ls, k + 1));
        }
    }
}

/// A step that still has content to see, or holds anything already, yields at
/// least one fragment when it succeeds.
proof fn lemma_step_nonempty(ls: Seq<Seq<char>>, i: int, st: StV)
    requires
        0 <= i,
        has_content(ls, i, ls.len() as int) || !(st.group is Idle) || st.frags.len() > 0,
    ensures
        spec_parse_step(ls, i, st) is Ok ==> spec_parse_step(ls, i, st)->Ok_0.len() > 0,
    decreases crate::parser::chars_total(ls), ls.len() - i, 1int,
{
    if 0 <= i < ls.len() {
        lemma_item_end_bounds(ls, i);
        if blank_at(ls, i) {
            if has_content(ls, i, ls.len() as int) {
                let k = choose|k: int| i <= k < ls.len() && !blank_at(ls, k);
                assert(i + 1 <= k);
                assert(has_content(ls, i + 1, ls.len() as int));
            }
            lemma_step_nonempty(ls, i + 1, st);
        } else {
            let t = trim_of(ls[i]);
            if is_seq_line(t) {
                if spec_parse_seq_item(ls, i) is Ok {
                    let item = spec_parse_seq_item(ls, i)->Ok_0;
                    let st2 = match st.group {
                        GroupV::InSeq(s) => StV {
                            frags: st.frags,
                            group: GroupV::InSeq(s.push(item)),
                        },
                        _ => StV { frags: finalize_frags(st), group: GroupV::InSeq(seq![item]) },
                    };
                    lemma_step_nonempty(ls, item_end(ls, i), st2);
                }
            } else if has_colon(t) {
                if spec_parse_map_entry(ls, i) is Ok {
                    let kv = spec_parse_map_entry(ls, i)->Ok_0;
                    let st2 = match st.group {
                        GroupV::InMap(m) => StV {
                            frags: st.frags,
                            group: GroupV::InMap(m.insert(kv.0, kv.1)),
                        },
                        _ => StV {
                            frags: finalize_frags(st),
                            group: GroupV::InMap(Map::empty().insert(kv.0, kv.1)),
                        },
                    };
                    lemma_step_nonempty(ls, item_end(ls, i), st2);
                }
            } else {
                let st2 = match st.group {
                    GroupV::InText(x) => StV {
                        frags: st.frags,
                        group: GroupV::InText(x + seq![' '] + t),
                    },
                    _ => StV { frags: finalize_frags(st), group: GroupV::InText(t) },
                };
                lemma_step_nonempty(ls, i + 1, st2);
            }
        }
    } else {
        assert(!has_content(ls, i, ls.len() as int));
    }
}

/// A successful parse never returns an empty forest: the document's lines
/// always yield at least one top-level fragment, and the root is that single
/// fragment itself, or the sequence of the several, wrapped in order.
pub proof fn lemma_root_never_empty(text: Seq<char>)
    ensures
        spec_parse(text) is Ok ==> ({
            let frags = spec_parse_step(
                spec_lines(text),
                0,
                StV { frags: Seq::empty(), group: GroupV::Idle },
            )->Ok_0;
            frags.len() > 0 && spec_parse(text)->Ok_0 == (if frags.len() == 1 {
                frags[0]
            } else {
                DataView::Sequence(frags)
            })
        }),
{
    if trim_of(text).len() > 0 && spec_parse(text) is Ok {
        let ls = spec_lines(text);
        lemma_lines_have_content(text);
        lemma_step_nonempty(ls, 0, StV { frags: Seq::empty(), group: GroupV::Idle });
    }
}

} // verus!
