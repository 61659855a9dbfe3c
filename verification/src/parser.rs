//! The block parser: line classification, indentation tracking and recursion
//! into nested blocks, specified as recursive functions over the line
//! sequence and implemented over `Vec<String>`.
use vstd::prelude::*;
use crate::data::{DataView, YAMLData};
use crate::data::{map_view_of, unique_keys, views_of_items, wf_entries, wf_items};
use crate::data::{lemma_map_view_at, lemma_map_view_dom, lemma_views_of_items};
use crate::error::YAMLParseError;
use crate::text::{dash_prefix_end, find_char_from, indent_of, trim_of};
use crate::text::{
    lemma_dash_prefix_end, lemma_find_char_from, lemma_trim_idempotent, lemma_trim_shape,
};
use crate::text::{find_char_at, line_indent, line_trim};
use vstd::string::StrSliceExecFns;
use vstd::string::StringExecFns;

verus! {

// ---------------------------------------------------------------------------
// Line classification
// ---------------------------------------------------------------------------
/// A sequence-item line: its trimmed text begins with the dash marker.
pub open spec fn is_seq_line(t: Seq<char>) -> bool {
    t.len() > 0 && t[0] == '-'
}

/// Whether the trimmed text holds a mapping separator anywhere.
pub open spec fn has_colon(t: Seq<char>) -> bool {
    find_char_from(t, 0, ':') >= 0
}

/// What remains of a sequence-item line after the dash marker: the leading
/// dashes stripped, then trimmed.
pub open spec fn seq_item_rest(t: Seq<char>) -> Seq<char> {
    trim_of(t.subrange(dash_prefix_end(t, 0), t.len() as int))
}

/// The key of a mapping line: the text before the first separator, trimmed.
pub open spec fn map_key_of(t: Seq<char>) -> Seq<char> {
    trim_of(t.subrange(0, find_char_from(t, 0, ':')))
}

/// The inline value of a mapping line: the text after the first separator,
/// trimmed.
pub open spec fn map_val_of(t: Seq<char>) -> Seq<char> {
    trim_of(t.subrange(find_char_from(t, 0, ':') + 1, t.len() as int))
}

/// The literal-block marker, as an inline value.
pub open spec fn is_literal_marker(v: Seq<char>) -> bool {
    v.len() == 1 && v[0] == '|'
}

/// An inline value that opens a flow bracket must close it on the same value.
pub open spec fn unbalanced_bracket(v: Seq<char>) -> bool {
    v.len() > 0 && v[0] == '[' && v[v.len() - 1] != ']'
}

// ---------------------------------------------------------------------------
// Lines of a document
// ---------------------------------------------------------------------------
/// Whether line `i` is blank: nothing but whitespace.
pub open spec fn blank_at(ls: Seq<Seq<char>>, i: int) -> bool {
    trim_of(ls[i]).len() == 0
}

/// The end of the nested block that is open at column `c` before line `i`:
/// the first line at or after `i` that is not blank and is indented no deeper
/// than `c`, or the number of lines when every remaining line belongs to the
/// block.
pub open spec fn block_end(ls: Seq<Seq<char>>, i: int, c: int) -> int
    decreases ls.len() - i,
{
    if i < 0 || i >= ls.len() {
        ls.len() as int
    } else if !blank_at(ls, i) && indent_of(ls[i]) <= c {
        i
    } else {
        block_end(ls, i + 1, c)
    }
}

/// Whether the range `[i, j)` holds any non-blank line.
pub open spec fn has_content(ls: Seq<Seq<char>>, i: int, j: int) -> bool {
    exists|k: int| i <= k < j && !blank_at(ls, k)
}

/// The body of a literal block: the trimmed non-blank lines of the range,
/// joined with newlines.
pub open spec fn join_literal(ls: Seq<Seq<char>>, i: int, j: int) -> Seq<char>
    decreases j - i,
{
    if !(0 <= i && i < j && j <= ls.len()) {
        Seq::empty()
    } else if blank_at(ls, i) {
        join_literal(ls, i + 1, j)
    } else {
        let rest = join_literal(ls, i + 1, j);
        if rest.len() == 0 {
            trim_of(ls[i])
        } else {
            trim_of(ls[i]) + seq!['\n'] + rest
        }
    }
}

/// The total character count of the lines: the termination measure for
/// recursion into nested blocks.
pub open spec fn chars_total(ls: Seq<Seq<char>>) -> nat
    decreases ls,
{
    if ls.len() == 0 {
        0
    } else {
        chars_total(ls.drop_last()) + ls.last().len()
    }
}

/// The character count of the lines from `i` on.
pub open spec fn chars_from(ls: Seq<Seq<char>>, i: int) -> nat
    decreases ls.len() - i,
{
    if i < 0 || i >= ls.len() {
        0
    } else {
        ls[i].len() + chars_from(ls, i + 1)
    }
}

pub proof fn lemma_chars_split(ls: Seq<Seq<char>>, i: int, j: int)
    requires
        0 <= i <= j <= ls.len(),
    ensures
        chars_total(ls.subrange(i, j)) + chars_from(ls, j) == chars_from(ls, i),
    decreases j - i,
{
    if i == j {
        assert(ls.subrange(i, j) =~= Seq::empty());
    } else {
        lemma_chars_split(ls, i, j - 1);
        assert(ls.subrange(i, j).drop_last() =~= ls.subrange(i, j - 1));
        assert(ls.subrange(i, j).last() == ls[j - 1]);
        assert(chars_total(ls.subrange(i, j)) == chars_total(ls.subrange(i, j - 1)) + ls[j
            - 1].len());
        assert(chars_from(ls, j - 1) == ls[j - 1].len() + chars_from(ls, j));
    }
}

pub proof fn lemma_chars_from_mono(ls: Seq<Seq<char>>, i: int, j: int)
    requires
        0 <= i <= j,
    ensures
        chars_from(ls, j) <= chars_from(ls, i),
    decreases j - i,
{
    if i < j {
        lemma_chars_from_mono(ls, i + 1, j);
    }
}

pub proof fn lemma_chars_total_from(ls: Seq<Seq<char>>)
    ensures
        chars_total(ls) == chars_from(ls, 0),
{
    lemma_chars_split(ls, 0, ls.len() as int);
    assert(ls.subrange(0, ls.len() as int) =~= ls);
}

pub proof fn lemma_chars_cons(x: Seq<char>, s: Seq<Seq<char>>)
    ensures
        chars_total(seq![x] + s) == x.len() + chars_total(s),
    decreases s,
{
    if s.len() == 0 {
        assert(seq![x] + s =~= seq![x]);
        assert(seq![x].drop_last() =~= Seq::<Seq<char>>::empty());
        assert(chars_total(seq![x].drop_last()) == 0);
        assert(seq![x].last() == x);
        assert(chars_total(seq![x]) == x.len());
    } else {
        lemma_chars_cons(x, s.drop_last());
        assert((seq![x] + s).drop_last() =~= seq![x] + s.drop_last());
        assert((seq![x] + s).last() == s.last());
        assert(chars_total(seq![x] + s) == chars_total(seq![x] + s.drop_last()) + s.last().len());
        assert(chars_total(s) == chars_total(s.drop_last()) + s.last().len());
    }
}

/// A sub-block that leaves out a non-blank line is strictly smaller.
pub proof fn lemma_chars_sub_block(ls: Seq<Seq<char>>, i: int, j: int)
    requires
        0 <= i < ls.len(),
        i + 1 <= j <= ls.len(),
        !blank_at(ls, i),
    ensures
        chars_total(ls.subrange(i + 1, j)) + ls[i].len() <= chars_total(ls),
        ls[i].len() >= 1,
{
    lemma_trim_shape(ls[i]);
    lemma_chars_split(ls, i + 1, j);
    lemma_chars_from_mono(ls, 0, i + 1);
    lemma_chars_total_from(ls);
    assert(chars_from(ls, i) == ls[i].len() + chars_from(ls, i + 1));
    lemma_chars_from_mono(ls, 0, i);
}

pub proof fn lemma_block_end_bounds(ls: Seq<Seq<char>>, i: int, c: int)
    requires
        0 <= i <= ls.len(),
    ensures
        i <= block_end(ls, i, c) <= ls.len(),
        forall|k: int|
            i <= k < block_end(ls, i, c) ==> blank_at(ls, k) || indent_of(ls[k]) > c,
        block_end(ls, i, c) < ls.len() ==> !blank_at(ls, block_end(ls, i, c)) && indent_of(
            ls[block_end(ls, i, c)],
        ) <= c,
    decreases ls.len() - i,
{
    if i < ls.len() && (blank_at(ls, i) || indent_of(ls[i]) > c) {
        lemma_block_end_bounds(ls, i + 1, c);
    }
}

// ---------------------------------------------------------------------------
// The extent of one item
// ---------------------------------------------------------------------------
/// The index of the first line after line `i` and the nested block, if any,
/// that line `i` opens: a sequence item whose rest is empty or holds a
/// separator, and a mapping entry whose inline value is empty or the literal
/// marker, own every following line that is blank or indented deeper than
/// their own column.
pub open spec fn item_end(ls: Seq<Seq<char>>, i: int) -> int {
    let l = ls[i];
    let c = indent_of(l);
    let t = trim_of(l);
    if is_seq_line(t) {
        let rest = seq_item_rest(t);
        if rest.len() == 0 || has_colon(rest) {
            block_end(ls, i + 1, c)
        } else {
            i + 1
        }
    } else if has_colon(t) {
        let v = map_val_of(t);
        if v.len() == 0 || is_literal_marker(v) {
            block_end(ls, i + 1, c)
        } else {
            i + 1
        }
    } else {
        i + 1
    }
}

pub proof fn lemma_item_end_bounds(ls: Seq<Seq<char>>, i: int)
    requires
        0 <= i < ls.len(),
    ensures
        i + 1 <= item_end(ls, i) <= ls.len(),
{
    lemma_block_end_bounds(ls, i + 1, indent_of(ls[i]));
}

/// The rest of a sequence-item line is strictly shorter than the line.
pub proof fn lemma_seq_rest_shorter(l: Seq<char>)
    requires
        is_seq_line(trim_of(l)),
    ensures
        seq_item_rest(trim_of(l)).len() < l.len(),
{
    let t = trim_of(l);
    lemma_trim_shape(l);
    lemma_dash_prefix_end(t, 0);
    let de = dash_prefix_end(t, 0);
    assert(de >= 1) by {
        assert(t[0] == '-');
    }
    let stripped = t.subrange(de, t.len() as int);
    lemma_trim_shape(stripped);
}

// ---------------------------------------------------------------------------
// The parser state
// ---------------------------------------------------------------------------
/// The open group that lines are currently accumulating into.
pub enum GroupV {
    Idle,
    InMap(Map<Seq<char>, DataView>),
    InSeq(Seq<DataView>),
    InText(Seq<char>),
}

/// The parser state: the fragments already closed, and the open group.
pub struct StV {
    pub frags: Seq<DataView>,
    pub group: GroupV,
}

/// Closes the open group, if any, into a fragment of its own.
pub open spec fn finalize_frags(st: StV) -> Seq<DataView> {
    match st.group {
        GroupV::Idle => st.frags,
        GroupV::InMap(m) => st.frags.push(DataView::Mapping(m)),
        GroupV::InSeq(s) => st.frags.push(DataView::Sequence(s)),
        GroupV::InText(x) => st.frags.push(DataView::Scalar(x)),
    }
}

// ---------------------------------------------------------------------------
// The parse itself
// ---------------------------------------------------------------------------
/// One sequence item. A plain rest is a scalar element. An empty rest demands
/// a nested block, which is parsed recursively; a rest with a separator opens
/// a nested block that begins with the rest itself, enabling sequences of
/// small mappings.
pub open spec fn spec_parse_seq_item(ls: Seq<Seq<char>>, i: int) -> Result<
    DataView,
    YAMLParseError,
>
    decreases chars_total(ls), ls.len() - i, 0int,
    via spec_parse_seq_item_dec
{
    let l = ls[i];
    let c = indent_of(l);
    let t = trim_of(l);
    let rest = seq_item_rest(t);
    if !(0 <= i < ls.len() && is_seq_line(t)) {
        Err(YAMLParseError::InvalidFormat)
    } else if rest.len() == 0 {
        let j = block_end(ls, i + 1, c);
        if !has_content(ls, i + 1, j) {
            Err(YAMLParseError::InvalidFormat)
        } else {
            spec_parse_block(ls.subrange(i + 1, j))
        }
    } else if has_colon(rest) {
        let j = block_end(ls, i + 1, c);
        spec_parse_block(seq![rest] + ls.subrange(i + 1, j))
    } else {
        Ok(DataView::Scalar(rest))
    }
}

/// One mapping entry. A non-empty inline value is a scalar, after the flow
/// bracket validation; the literal marker takes the nested block verbatim as
/// one newline-joined scalar; an empty value takes the nested block parsed
/// recursively, or an empty scalar when no nested content follows. A mapping
/// separator with an empty key is a structural violation.
pub open spec fn spec_parse_map_entry(ls: Seq<Seq<char>>, i: int) -> Result<
    (Seq<char>, DataView),
    YAMLParseError,
>
    decreases chars_total(ls), ls.len() - i, 0int,
    via spec_parse_map_entry_dec
{
    let l = ls[i];
    let c = indent_of(l);
    let t = trim_of(l);
    let key = map_key_of(t);
    let v = map_val_of(t);
    if !(0 <= i < ls.len() && t.len() > 0) {
        Err(YAMLParseError::InvalidFormat)
    } else if key.len() == 0 {
        Err(YAMLParseError::InvalidFormat)
    } else if is_literal_marker(v) {
        let j = block_end(ls, i + 1, c);
        Ok((key, DataView::Scalar(join_literal(ls, i + 1, j))))
    } else if v.len() > 0 {
        if unbalanced_bracket(v) {
            Err(YAMLParseError::InvalidFormat)
        } else {
            Ok((key, DataView::Scalar(v)))
        }
    } else {
        let j = block_end(ls, i + 1, c);
        if !has_content(ls, i + 1, j) {
            Ok((key, DataView::Scalar(Seq::empty())))
        } else {
            match spec_parse_block(ls.subrange(i + 1, j)) {
                Ok(v) => Ok((key, v)),
                Err(e) => Err(e),
            }
        }
    }
}

/// Classifies line `i` and folds it into the state, then goes on behind the
/// item's extent. A sequence item extends the open sequence or begins one; a
/// mapping entry extends the open mapping, overwriting on an equal key, or
/// begins one; a bare line extends the open scalar run with a space or begins
/// one; a blank line changes nothing. Past the last line, the state is
/// closed.
pub open spec fn spec_parse_step(ls: Seq<Seq<char>>, i: int, st: StV) -> Result<
    Seq<DataView>,
    YAMLParseError,
>
    decreases chars_total(ls), ls.len() - i, 1int,
    via spec_parse_step_dec
{
    if i < 0 || i >= ls.len() {
        Ok(finalize_frags(st))
    } else if blank_at(ls, i) {
        spec_parse_step(ls, i + 1, st)
    } else {
        let t = trim_of(ls[i]);
        if is_seq_line(t) {
            match spec_parse_seq_item(ls, i) {
                Ok(item) => {
                    let st2 = match st.group {
                        GroupV::InSeq(s) => StV { frags: st.frags, group: GroupV::InSeq(s.push(item)) },
                        _ => StV { frags: finalize_frags(st), group: GroupV::InSeq(seq![item]) },
                    };
                    spec_parse_step(ls, item_end(ls, i), st2)
                },
                Err(e) => Err(e),
            }
        } else if has_colon(t) {
            match spec_parse_map_entry(ls, i) {
                Ok(kv) => {
                    let st2 = match st.group {
                        GroupV::InMap(m) => StV {
                            frags: st.frags,
                            group: GroupV::InMap(m.insert(kv.0, kv.1)),
                        },
                        _ => StV {
                            frags: finalize_frags(st),
                            group: GroupV::InMap(Map::empty().insert(kv.0, kv.1)),
                        },
                    };
                    spec_parse_step(ls, item_end(ls, i), st2)
                },
                Err(e) => Err(e),
            }
        } else {
            let st2 = match st.group {
                GroupV::InText(x) => StV {
                    frags: st.frags,
                    group: GroupV::InText(x + seq![' '] + t),
                },
                _ => StV { frags: finalize_frags(st), group: GroupV::InText(t) },
            };
            spec_parse_step(ls, i + 1, st2)
        }
    }
}

/// Parses a block of lines: the fragments it yields, one value when there is
/// exactly one, and a sequence of them otherwise.
pub open spec fn spec_parse_block(ls: Seq<Seq<char>>) -> Result<DataView, YAMLParseError>
    decreases chars_total(ls), ls.len() + 1, 0int,
{
    match spec_parse_step(ls, 0, StV { frags: Seq::empty(), group: GroupV::Idle }) {
        Ok(frags) => if frags.len() == 1 {
            Ok(frags[0])
        } else {
            Ok(DataView::Sequence(frags))
        },
        Err(e) => Err(e),
    }
}

#[via_fn]
proof fn spec_parse_seq_item_dec(ls: Seq<Seq<char>>, i: int) {
    let t = trim_of(ls[i]);
    if 0 <= i < ls.len() && is_seq_line(t) {
        let c = indent_of(ls[i]);
        let j = block_end(ls, i + 1, c);
        lemma_block_end_bounds(ls, i + 1, c);
        lemma_seq_rest_shorter(ls[i]);
        lemma_chars_sub_block(ls, i, j);
        lemma_chars_cons(seq_item_rest(t), ls.subrange(i + 1, j));
    }
}

#[via_fn]
proof fn spec_parse_map_entry_dec(ls: Seq<Seq<char>>, i: int) {
    if 0 <= i < ls.len() && trim_of(ls[i]).len() > 0 {
        let c = indent_of(ls[i]);
        let j = block_end(ls, i + 1, c);
        lemma_block_end_bounds(ls, i + 1, c);
        lemma_chars_sub_block(ls, i, j);
    }
}

#[via_fn]
proof fn spec_parse_step_dec(ls: Seq<Seq<char>>, i: int, st: StV) {
    if 0 <= i < ls.len() {
        lemma_item_end_bounds(ls, i);
    }
}

// ---------------------------------------------------------------------------
// The whole document
// ---------------------------------------------------------------------------
/// The document's physical lines: the text split at every newline.
pub open spec fn spec_lines(text: Seq<char>) -> Seq<Seq<char>>
    decreases text.len(),
{
    let p = find_char_from(text, 0, '\n');
    if p < 0 || p >= text.len() {
        seq![text]
    } else {
        seq![text.subrange(0, p)] + spec_lines(text.subrange(p + 1, text.len() as int))
    }
}

/// What parsing a document returns: `EmptyInput` on text that is empty or
/// all whitespace, and otherwise the parse of its lines.
pub open spec fn spec_parse(text: Seq<char>) -> Result<DataView, YAMLParseError> {
    if trim_of(text).len() == 0 {
        Err(YAMLParseError::EmptyInput)
    } else {
        spec_parse_block(spec_lines(text))
    }
}

// ---------------------------------------------------------------------------
// Executable helpers over lines
// ---------------------------------------------------------------------------
/// The views of the lines.
pub open spec fn lines_view(lines: Seq<String>) -> Seq<Seq<char>> {
    lines.map_values(|s: String| s@)
}

/// Whether a trimmed line is a sequence item.
fn is_sequence(line: &str) -> (b: bool)
    ensures
        b == is_seq_line(line@),
{
    line.unicode_len() > 0 && line.get_char(0) == '-'
}

/// Whether a trimmed line holds a mapping separator.
fn is_mapping(line: &str) -> (b: bool)
    ensures
        b == has_colon(line@),
{
    let r = find_char_at(line, 0, ':');
    proof {
        lemma_find_char_from(line@, 0, ':');
    }
    r.is_some()
}

/// What remains of a sequence-item line after its dash marker.
fn seq_rest(t: &str) -> (r: String)
    ensures
        r@ == seq_item_rest(t@),
{
    let len = t.unicode_len();
    let mut d: usize = 0;
    while d < len && t.get_char(d) == '-'
        invariant
            d <= len,
            len == t@.len(),
            dash_prefix_end(t@, 0) == dash_prefix_end(t@, d as int),
        decreases len - d,
    {
        d = d + 1;
    }
    line_trim(t.substring_char(d, len))
}

/// The end of the nested block open at column `c`, scanning from line `i`.
fn find_block_end(lines: &Vec<String>, i: usize, c: usize) -> (j: usize)
    requires
        i <= lines@.len(),
    ensures
        j == block_end(lines_view(lines@), i as int, c as int),
        i <= j <= lines@.len(),
{
    let ghost ls = lines_view(lines@);
    let mut j = i;
    while j < lines.len()
        invariant
            i <= j <= lines@.len(),
            ls == lines_view(lines@),
            block_end(ls, i as int, c as int) == block_end(ls, j as int, c as int),
        decreases lines@.len() - j,
    {
        proof {
            assert(ls[j as int] == lines@[j as int]@);
        }
        let t = line_trim(lines[j].as_str());
        let ind = line_indent(lines[j].as_str());
        if !t.as_str().is_empty() && ind <= c {
            return j;
        }
        j = j + 1;
    }
    j
}

/// Whether any line of `[i, j)` is non-blank.
fn range_has_content(lines: &Vec<String>, i: usize, j: usize) -> (b: bool)
    requires
        i <= j <= lines@.len(),
    ensures
        b == has_content(lines_view(lines@), i as int, j as int),
{
    let ghost ls = lines_view(lines@);
    let mut k = i;
    while k < j
        invariant
            i <= k <= j <= lines@.len(),
            ls == lines_view(lines@),
            forall|m: int| i <= m < k ==> blank_at(ls, m),
        decreases j - k,
    {
        proof {
            assert(ls[k as int] == lines@[k as int]@);
        }
        let t = line_trim(lines[k].as_str());
        if !t.as_str().is_empty() {
            assert(!blank_at(ls, k as int));
            return true;
        }
        k = k + 1;
    }
    false
}

/// Clones the lines of `[i, j)` into a block of their own.
fn copy_range(lines: &Vec<String>, i: usize, j: usize) -> (out: Vec<String>)
    requires
        i <= j <= lines@.len(),
    ensures
        lines_view(out@) == lines_view(lines@).subrange(i as int, j as int),
{
    let ghost ls = lines_view(lines@);
    let mut out: Vec<String> = Vec::new();
    let mut k = i;
    while k < j
        invariant
            i <= k <= j <= lines@.len(),
            ls == lines_view(lines@),
            out@.len() == k - i,
            forall|m: int| 0 <= m < out@.len() ==> out@[m]@ == ls[i + m],
        decreases j - k,
    {
        out.push(lines[k].clone());
        k = k + 1;
    }
    proof {
        assert(lines_view(out@) =~= ls.subrange(i as int, j as int));
    }
    out
}

/// Joins the trimmed non-blank lines of `[i, j)` with newlines: the body of a
/// literal block.
fn collect_literal(lines: &Vec<String>, i: usize, j: usize) -> (out: String)
    requires
        i <= j <= lines@.len(),
    ensures
        out@ == join_literal(lines_view(lines@), i as int, j as int),
{
    let ghost ls = lines_view(lines@);
    let mut out = String::new();
    let mut k = j;
    while k > i
        invariant
            i <= k <= j <= lines@.len(),
            ls == lines_view(lines@),
            out@ == join_literal(ls, k as int, j as int),
        decreases k,
    {
        k = k - 1;
        proof {
            assert(ls[k as int] == lines@[k as int]@);
        }
        let t = line_trim(lines[k].as_str());
        if !t.as_str().is_empty() {
            if out.as_str().is_empty() {
                out = t;
            } else {
                let mut built = t;
                built.append("\n");
                built.append(out.as_str());
                proof {
                    reveal_strlit("\n");
                    assert("\n"@ =~= seq!['\n']);
                }
                out = built;
            }
        }
    }
    out
}

/// Searching inside a suffix finds the same character, shifted.
pub proof fn lemma_find_char_shift(l: Seq<char>, a: int, k: int, ch: char)
    requires
        0 <= a,
        0 <= k,
        a + k <= l.len(),
    ensures
        ({
            let sub = l.subrange(a, l.len() as int);
            let p = find_char_from(l, a + k, ch);
            find_char_from(sub, k, ch) == if p < 0 {
                -1int
            } else {
                p - a
            }
        }),
    decreases l.len() - a - k,
{
    let sub = l.subrange(a, l.len() as int);
    if a + k < l.len() {
        assert(sub[k] == l[a + k]);
        if l[a + k] != ch {
            lemma_find_char_shift(l, a, k + 1, ch);
        }
    }
}

/// Splits the document into its physical lines at every newline.
fn split_lines(s: &str) -> (out: Vec<String>)
    ensures
        lines_view(out@) == spec_lines(s@),
{
    let len = s.unicode_len();
    let mut out: Vec<String> = Vec::new();
    let mut start: usize = 0;
    proof {
        assert(s@.subrange(0, len as int) =~= s@);
    }
    loop
        invariant
            start <= len,
            len == s@.len(),
            spec_lines(s@) == lines_view(out@) + spec_lines(s@.subrange(start as int, len as int)),
        decreases len - start,
    {
        let ghost sub = s@.subrange(start as int, len as int);
        match find_char_at(s, start, '\n') {
            None => {
                let piece = s.substring_char(start, len).to_owned();
                out.push(piece);
                proof {
                    lemma_find_char_shift(s@, start as int, 0, '\n');
                    assert(spec_lines(sub) == seq![sub]);
                    assert(lines_view(out@) =~= spec_lines(s@));
                }
                return out;
            },
            Some(p) => {
                let piece = s.substring_char(start, p).to_owned();
                out.push(piece);
                proof {
                    lemma_find_char_shift(s@, start as int, 0, '\n');
                    let q = p - start;
                    assert(find_char_from(sub, 0, '\n') == q);
                    assert(sub.subrange(0, q as int) =~= s@.subrange(start as int, p as int));
                    assert(sub.subrange(q + 1, sub.len() as int) =~= s@.subrange(
                        p + 1,
                        len as int,
                    ));
                    assert(spec_lines(sub) == seq![s@.subrange(start as int, p as int)]
                        + spec_lines(s@.subrange(p + 1, len as int)));
                    assert(lines_view(out@) + spec_lines(s@.subrange(p + 1, len as int))
                        =~= spec_lines(s@));
                }
                start = p + 1;
            },
        }
    }
}

/// Well-formed entries, stated entry by entry.
pub proof fn lemma_wf_entries_char(es: Seq<(String, YAMLData)>)
    ensures
        wf_entries(es) <==> (forall|i: int|
            0 <= i < es.len() ==> (#[trigger] es[i]).0@.len() > 0 && trim_of(es[i].0@)
                == es[i].0@ && es[i].1.wf()),
    decreases es,
{
    if es.len() > 0 {
        lemma_wf_entries_char(es.drop_last());
        if wf_entries(es) {
            assert forall|i: int| 0 <= i < es.len() implies (#[trigger] es[i]).0@.len() > 0
                && trim_of(es[i].0@) == es[i].0@ && es[i].1.wf() by {
                if i < es.len() - 1 {
                    assert(es.drop_last()[i] == es[i]);
                } else {
                    assert(es[i] == es.last());
                }
            };
        }
        if forall|i: int|
            0 <= i < es.len() ==> (#[trigger] es[i]).0@.len() > 0 && trim_of(es[i].0@)
                == es[i].0@ && es[i].1.wf() {
            assert forall|i: int|
                0 <= i < es.drop_last().len() implies (#[trigger] es.drop_last()[i]).0@.len() > 0
                && trim_of(es.drop_last()[i].0@) == es.drop_last()[i].0@
                && es.drop_last()[i].1.wf() by {
                assert(es.drop_last()[i] == es[i]);
            };
            assert(es.last() == es[es.len() - 1]);
        }
    }
}

/// Well-formed items, stated item by item.
pub proof fn lemma_wf_items_char(items: Seq<YAMLData>)
    ensures
        wf_items(items) <==> (forall|i: int|
            0 <= i < items.len() ==> (#[trigger] items[i]).wf()),
    decreases items,
{
    if items.len() > 0 {
        lemma_wf_items_char(items.drop_last());
        if wf_items(items) {
            assert forall|i: int| 0 <= i < items.len() implies (#[trigger] items[i]).wf() by {
                if i < items.len() - 1 {
                    assert(items.drop_last()[i] == items[i]);
                } else {
                    assert(items[i] == items.last());
                }
            };
        }
        if forall|i: int| 0 <= i < items.len() ==> (#[trigger] items[i]).wf() {
            assert forall|i: int|
                0 <= i < items.drop_last().len() implies (#[trigger] items.drop_last()[i]).wf() by {
                assert(items.drop_last()[i] == items[i]);
            };
            assert(items.last() == items[items.len() - 1]);
        }
    }
}

/// Binds `key` to `value` in the accumulating mapping: a fresh key is added,
/// an existing one is overwritten in place.
#[verifier::loop_isolation(false)]
fn map_insert(entries: &mut Vec<(String, YAMLData)>, key: String, value: YAMLData)
    requires
        unique_keys(old(entries)@),
        wf_entries(old(entries)@),
        key@.len() > 0,
        trim_of(key@) == key@,
        value.wf(),
    ensures
        map_view_of(final(entries)@) == map_view_of(old(entries)@).insert(key@, value@),
        unique_keys(final(entries)@),
        wf_entries(final(entries)@),
{
    let ghost oldes = entries@;
    let mut m: usize = 0;
    while m < entries.len()
        invariant
            m <= entries@.len(),
            entries@ == oldes,
            forall|q: int| 0 <= q < m ==> oldes[q].0@ != key@,
        decreases entries@.len() - m,
    {
        if entries[m].0 == key {
            let ghost gkey = key@;
            let ghost gval = value@;
            proof {
                assert(oldes[m as int].0@ == gkey);
            }
            entries[m] = (key, value);
            proof {
                let newes = entries@;
                assert(newes[m as int].0@ == gkey && newes[m as int].1@ == gval);
                assert(forall|i: int|
                    0 <= i < newes.len() && i != m ==> newes[i] == oldes[i]);
                assert(forall|i: int|
                    0 <= i < newes.len() ==> (#[trigger] newes[i]).0@ == oldes[i].0@);
                assert forall|i: int, j: int|
                    0 <= i < j < newes.len() implies newes[i].0@ != newes[j].0@ by {
                    assert(newes[i].0@ == oldes[i].0@);
                    assert(newes[j].0@ == oldes[j].0@);
                    assert(oldes[i].0@ != oldes[j].0@);
                };
                assert(unique_keys(newes));
                lemma_wf_entries_char(oldes);
                lemma_wf_entries_char(newes);
                assert forall|i: int|
                    0 <= i < newes.len() implies (#[trigger] newes[i]).0@.len() > 0 && trim_of(
                    newes[i].0@,
                ) == newes[i].0@ && newes[i].1.wf() by {
                    if i == m {
                        assert(newes[i] == (key, value));
                    } else {
                        assert(newes[i] == oldes[i]);
                    }
                };
                assert(wf_entries(newes));
                assert forall|k2: Seq<char>|
                    map_view_of(newes).dom().contains(k2) == map_view_of(oldes).insert(
                        key@,
                        value@,
                    ).dom().contains(k2) by {
                    lemma_map_view_dom(newes, k2);
                    lemma_map_view_dom(oldes, k2);
                    if map_view_of(oldes).contains_key(k2) {
                        let i = choose|i: int| 0 <= i < oldes.len() && oldes[i].0@ == k2;
                        assert(newes[i].0@ == k2);
                    }
                    if map_view_of(newes).contains_key(k2) {
                        let i = choose|i: int| 0 <= i < newes.len() && newes[i].0@ == k2;
                        assert(oldes[i].0@ == k2);
                    }
                };
                assert(map_view_of(newes).dom() =~= map_view_of(oldes).insert(
                    key@,
                    value@,
                ).dom());
                assert forall|k2: Seq<char>| map_view_of(newes).dom().contains(k2) implies map_view_of(
                    newes,
                )[k2] == map_view_of(oldes).insert(key@, value@)[k2] by {
                    lemma_map_view_dom(newes, k2);
                    let i = choose|i: int| 0 <= i < newes.len() && newes[i].0@ == k2;
                    lemma_map_view_at(newes, i);
                    if k2 == key@ {
                        assert(i == m as int);
                    } else {
                        assert(oldes[i].0@ == k2 && oldes[i].1@ == newes[i].1@);
                        lemma_map_view_at(oldes, i);
                    }
                };
                assert(map_view_of(newes) =~= map_view_of(oldes).insert(key@, value@));
            }
            return;
        }
        m = m + 1;
    }
    entries.push((key, value));
    proof {
        let newes = entries@;
        assert(newes.drop_last() =~= oldes);
        assert(map_view_of(newes) == map_view_of(oldes).insert(key@, value@));
        assert(forall|i: int| 0 <= i < oldes.len() ==> newes[i] == oldes[i]);
        assert(newes[newes.len() - 1].0@ == key@);
        assert(unique_keys(newes));
        lemma_wf_entries_char(oldes);
        lemma_wf_entries_char(newes);
        assert(wf_entries(newes));
    }
}

// ---------------------------------------------------------------------------
// The executable parser
// ---------------------------------------------------------------------------
/// The open group that lines are accumulating into.
enum Group {
    Idle,
    InMap(Vec<(String, YAMLData)>),
    InSeq(Vec<YAMLData>),
    InText(String),
}

spec fn group_view(g: Group) -> GroupV {
    match g {
        Group::Idle => GroupV::Idle,
        Group::InMap(es) => GroupV::InMap(map_view_of(es@)),
        Group::InSeq(items) => GroupV::InSeq(views_of_items(items@)),
        Group::InText(x) => GroupV::InText(x@),
    }
}

spec fn group_wf(g: Group) -> bool {
    match g {
        Group::InMap(es) => unique_keys(es@) && wf_entries(es@),
        Group::InSeq(items) => wf_items(items@),
        _ => true,
    }
}

/// Closes the open group, if any, into a fragment of its own.
fn push_group(frags: &mut Vec<YAMLData>, g: Group)
    requires
        wf_items(old(frags)@),
        group_wf(g),
    ensures
        views_of_items(final(frags)@) == finalize_frags(
            StV { frags: views_of_items(old(frags)@), group: group_view(g) },
        ),
        wf_items(final(frags)@),
{
    match g {
        Group::Idle => {},
        Group::InMap(es) => {
            let d = YAMLData::Mapping(es);
            let ghost dv = d@;
            proof {
                assert(d.wf());
                assert(dv == DataView::Mapping(map_view_of(es@)));
            }
            frags.push(d);
            proof {
                assert(frags@.drop_last() =~= old(frags)@);
                assert(views_of_items(frags@) == views_of_items(old(frags)@).push(dv));
                assert(wf_items(frags@));
            }
        },
        Group::InSeq(items) => {
            let d = YAMLData::Sequence(items);
            let ghost dv = d@;
            proof {
                assert(d.wf());
            }
            frags.push(d);
            proof {
                assert(frags@.drop_last() =~= old(frags)@);
                assert(views_of_items(frags@) == views_of_items(old(frags)@).push(dv));
                assert(wf_items(frags@));
            }
        },
        Group::InText(x) => {
            let d = YAMLData::Scalar(x);
            let ghost dv = d@;
            proof {
                assert(d.wf());
            }
            frags.push(d);
            proof {
                assert(frags@.drop_last() =~= old(frags)@);
                assert(views_of_items(frags@) == views_of_items(old(frags)@).push(dv));
                assert(wf_items(frags@));
            }
        },
    }
}

/// One sequence item, starting at line `i`: the parsed element and the index
/// of the first line after it and its nested block.
#[verifier::rlimit(30)]
fn parse_sequence_item(lines: &Vec<String>, i: usize) -> (r: Result<
    (YAMLData, usize),
    YAMLParseError,
>)
    requires
        i < lines@.len(),
        is_seq_line(trim_of(lines_view(lines@)[i as int])),
    ensures
        match r {
            Ok(p) => spec_parse_seq_item(lines_view(lines@), i as int) == Ok::<
                DataView,
                YAMLParseError,
            >(p.0@) && p.0.wf() && p.1 == item_end(lines_view(lines@), i as int) && i < p.1
                <= lines@.len(),
            Err(e) => spec_parse_seq_item(lines_view(lines@), i as int) == Err::<
                DataView,
                YAMLParseError,
            >(e),
        },
    decreases chars_total(lines_view(lines@)), 0int,
{
    let ghost ls = lines_view(lines@);
    let nlines = lines.len();
    proof {
        assert(i < nlines);
        assert(ls[i as int] == lines@[i as int]@);
        lemma_item_end_bounds(ls, i as int);
        lemma_trim_shape(ls[i as int]);
    }
    let t = line_trim(lines[i].as_str());
    let c = line_indent(lines[i].as_str());
    let rest = seq_rest(t.as_str());
    if rest.as_str().is_empty() {
        let j = find_block_end(lines, i + 1, c);
        if !range_has_content(lines, i + 1, j) {
            return Err(YAMLParseError::InvalidFormat);
        }
        let sub = copy_range(lines, i + 1, j);
        proof {
            lemma_chars_sub_block(ls, i as int, j as int);
        }
        match parse_lines(sub) {
            Ok(v) => Ok((v, j)),
            Err(e) => Err(e),
        }
    } else {
        let nested = is_mapping(rest.as_str());
        if nested {
            let j = find_block_end(lines, i + 1, c);
            let mut sub = copy_range(lines, i + 1, j);
            sub.insert(0, rest);
            proof {
                assert(lines_view(sub@) =~= seq![seq_item_rest(trim_of(ls[i as int]))]
                    + ls.subrange(i + 1, j as int));
                lemma_chars_sub_block(ls, i as int, j as int);
                lemma_seq_rest_shorter(ls[i as int]);
                lemma_chars_cons(
                    seq_item_rest(trim_of(ls[i as int])),
                    ls.subrange(i + 1, j as int),
                );
            }
            match parse_lines(sub) {
                Ok(v) => Ok((v, j)),
                Err(e) => Err(e),
            }
        } else {
            Ok((YAMLData::Scalar(rest), i + 1))
        }
    }
}

/// One mapping entry, starting at line `i`: the key, the parsed value, and
/// the index of the first line after the entry and its nested block.
fn parse_mapping_item(lines: &Vec<String>, i: usize) -> (r: Result<
    ((String, YAMLData), usize),
    YAMLParseError,
>)
    requires
        i < lines@.len(),
        trim_of(lines_view(lines@)[i as int]).len() > 0,
        !is_seq_line(trim_of(lines_view(lines@)[i as int])),
        has_colon(trim_of(lines_view(lines@)[i as int])),
    ensures
        match r {
            Ok(p) => spec_parse_map_entry(lines_view(lines@), i as int) == Ok::<
                (Seq<char>, DataView),
                YAMLParseError,
            >((p.0.0@, p.0.1@)) && p.0.1.wf() && p.0.0@.len() > 0 && trim_of(p.0.0@) == p.0.0@
                && p.1 == item_end(lines_view(lines@), i as int) && i < p.1 <= lines@.len(),
            Err(e) => spec_parse_map_entry(lines_view(lines@), i as int) == Err::<
                (Seq<char>, DataView),
                YAMLParseError,
            >(e),
        },
    decreases chars_total(lines_view(lines@)), 0int,
{
    let ghost ls = lines_view(lines@);
    let nlines = lines.len();
    proof {
        assert(i < nlines);
        assert(ls[i as int] == lines@[i as int]@);
        lemma_item_end_bounds(ls, i as int);
        lemma_trim_shape(ls[i as int]);
    }
    let t = line_trim(lines[i].as_str());
    let c = line_indent(lines[i].as_str());
    let tlen = t.as_str().unicode_len();
    proof {
        lemma_find_char_from(t@, 0, ':');
    }
    let p = match find_char_at(t.as_str(), 0, ':') {
        Some(p) => p,
        None => {
            proof {
                assert(false);
            }
            return Err(YAMLParseError::InvalidFormat);
        },
    };
    let key = line_trim(t.as_str().substring_char(0, p));
    let val = line_trim(t.as_str().substring_char(p + 1, tlen));
    proof {
        assert(key@ == map_key_of(trim_of(ls[i as int])));
        assert(val@ == map_val_of(trim_of(ls[i as int])));
        lemma_trim_idempotent(t@.subrange(0, p as int));
    }
    if key.as_str().is_empty() {
        return Err(YAMLParseError::InvalidFormat);
    }
    let vlen = val.as_str().unicode_len();
    if vlen == 1 && val.as_str().get_char(0) == '|' {
        let j = find_block_end(lines, i + 1, c);
        let text = collect_literal(lines, i + 1, j);
        return Ok(((key, YAMLData::Scalar(text)), j));
    }
    if vlen > 0 {
        if val.as_str().get_char(0) == '[' && val.as_str().get_char(vlen - 1) != ']' {
            return Err(YAMLParseError::InvalidFormat);
        }
        return Ok(((key, YAMLData::Scalar(val)), i + 1));
    }
    let j = find_block_end(lines, i + 1, c);
    if !range_has_content(lines, i + 1, j) {
        return Ok(((key, YAMLData::Scalar(String::new())), j));
    }
    let sub = copy_range(lines, i + 1, j);
    proof {
        lemma_chars_sub_block(ls, i as int, j as int);
    }
    match parse_lines(sub) {
        Ok(v) => Ok(((key, v), j)),
        Err(e) => Err(e),
    }
}

/// Parses a block of lines by classifying each line in turn, closing and
/// opening groups as the classification changes, and wrapping the fragments:
/// one fragment is the result itself, any other number becomes a sequence.
#[verifier::loop_isolation(false)]
fn parse_lines(lines: Vec<String>) -> (r: Result<YAMLData, YAMLParseError>)
    ensures
        match r {
            Ok(v) => spec_parse_block(lines_view(lines@)) == Ok::<DataView, YAMLParseError>(v@)
                && v.wf(),
            Err(e) => spec_parse_block(lines_view(lines@)) == Err::<DataView, YAMLParseError>(e),
        },
    decreases chars_total(lines_view(lines@)), 1int,
{
    let ghost ls = lines_view(lines@);
    let ghost init = StV { frags: Seq::empty(), group: GroupV::Idle };
    let mut frags: Vec<YAMLData> = Vec::new();
    let mut group = Group::Idle;
    let mut i: usize = 0;
    proof {
        assert(views_of_items(frags@) =~= Seq::<DataView>::empty());
    }
    while i < lines.len()
        invariant
            i <= lines@.len(),
            wf_items(frags@),
            group_wf(group),
            spec_parse_step(ls, 0, init) == spec_parse_step(
                ls,
                i as int,
                StV { frags: views_of_items(frags@), group: group_view(group) },
            ),
        decreases lines@.len() - i,
    {
        proof {
            assert(ls[i as int] == lines@[i as int]@);
        }
        let ghost st_now = StV { frags: views_of_items(frags@), group: group_view(group) };
        let t = line_trim(lines[i].as_str());
        if t.as_str().is_empty() {
            proof {
                assert(blank_at(ls, i as int));
            }
            i = i + 1;
        } else if is_sequence(t.as_str()) {
            match parse_sequence_item(&lines, i) {
                Err(e) => {
                    proof {
                        assert(spec_parse_step(ls, i as int, st_now) == Err::<
                            Seq<DataView>,
                            YAMLParseError,
                        >(e));
                    }
                    return Err(e);
                },
                Ok((item, next)) => {
                    let ghost itemv = item@;
                    group = match group {
                        Group::InSeq(mut items) => {
                            let ghost prev = items@;
                            items.push(item);
                            proof {
                                assert(items@.drop_last() =~= prev);
                                assert(views_of_items(items@) == views_of_items(prev).push(itemv));
                                assert(wf_items(items@));
                            }
                            Group::InSeq(items)
                        },
                        other => {
                            push_group(&mut frags, other);
                            let items = vec![item];
                            proof {
                                assert(items@.drop_last() =~= Seq::<YAMLData>::empty());
                                assert(views_of_items(items@.drop_last())
                                    =~= Seq::<DataView>::empty());
                                assert(views_of_items(items@) =~= seq![itemv]);
                                assert(items@.last() == item);
                                assert(wf_items(items@.drop_last()));
                                assert(wf_items(items@));
                            }
                            Group::InSeq(items)
                        },
                    };
                    proof {
                        let st2 = StV {
                            frags: views_of_items(frags@),
                            group: group_view(group),
                        };
                        assert(spec_parse_step(ls, i as int, st_now) == spec_parse_step(
                            ls,
                            item_end(ls, i as int),
                            st2,
                        ));
                    }
                    i = next;
                },
            }
        } else if is_mapping(t.as_str()) {
            match parse_mapping_item(&lines, i) {
                Err(e) => {
                    proof {
                        assert(spec_parse_step(ls, i as int, st_now) == Err::<
                            Seq<DataView>,
                            YAMLParseError,
                        >(e));
                    }
                    return Err(e);
                },
                Ok(((k, v), next)) => {
                    group = match group {
                        Group::InMap(mut es) => {
                            map_insert(&mut es, k, v);
                            Group::InMap(es)
                        },
                        other => {
                            push_group(&mut frags, other);
                            let mut es: Vec<(String, YAMLData)> = Vec::new();
                            proof {
                                assert(map_view_of(es@) =~= Map::<Seq<char>, DataView>::empty());
                                assert(unique_keys(es@) && wf_entries(es@));
                            }
                            map_insert(&mut es, k, v);
                            Group::InMap(es)
                        },
                    };
                    proof {
                        let st2 = StV {
                            frags: views_of_items(frags@),
                            group: group_view(group),
                        };
                        assert(spec_parse_step(ls, i as int, st_now) == spec_parse_step(
                            ls,
                            item_end(ls, i as int),
                            st2,
                        ));
                    }
                    i = next;
                },
            }
        } else {
            group = match group {
                Group::InText(mut x) => {
                    let ghost prev = x@;
                    proof {
                        reveal_strlit(" ");
                        assert(" "@ =~= seq![' ']);
                    }
                    x.append(" ");
                    x.append(t.as_str());
                    proof {
                        assert(x@ =~= prev + seq![' '] + trim_of(ls[i as int]));
                    }
                    Group::InText(x)
                },
                other => {
                    push_group(&mut frags, other);
                    Group::InText(t)
                },
            };
            proof {
                let st2 = StV { frags: views_of_items(frags@), group: group_view(group) };
                assert(spec_parse_step(ls, i as int, st_now) == spec_parse_step(
                    ls,
                    i + 1,
                    st2,
                ));
            }
            i = i + 1;
        }
    }
    proof {
        assert(spec_parse_step(
            ls,
            i as int,
            StV { frags: views_of_items(frags@), group: group_view(group) },
        ) == Ok::<Seq<DataView>, YAMLParseError>(
            finalize_frags(StV { frags: views_of_items(frags@), group: group_view(group) }),
        ));
    }
    push_group(&mut frags, group);
    let ghost fv = views_of_items(frags@);
    proof {
        assert(spec_parse_step(ls, 0, init) == Ok::<Seq<DataView>, YAMLParseError>(fv));
        lemma_views_of_items(frags@);
        lemma_wf_items_char(frags@);
    }
    if frags.len() == 1 {
        let v = frags.remove(0);
        proof {
            assert(fv[0] == v@);
        }
        Ok(v)
    } else {
        Ok(YAMLData::Sequence(frags))
    }
}

/// A sequence item fails only with `InvalidFormat`.
pub proof fn lemma_seq_item_errors(ls: Seq<Seq<char>>, i: int)
    ensures
        spec_parse_seq_item(ls, i) is Err ==> spec_parse_seq_item(ls, i) == Err::<
            DataView,
            YAMLParseError,
        >(YAMLParseError::InvalidFormat),
    decreases chars_total(ls), ls.len() - i, 0int,
{
    if 0 <= i < ls.len() && is_seq_line(trim_of(ls[i])) {
        let c = indent_of(ls[i]);
        let t = trim_of(ls[i]);
        let rest = seq_item_rest(t);
        let j = block_end(ls, i + 1, c);
        lemma_block_end_bounds(ls, i + 1, c);
        lemma_trim_shape(ls[i]);
        if rest.len() == 0 {
            if has_content(ls, i + 1, j) {
                lemma_chars_sub_block(ls, i, j);
                lemma_block_errors_invalid(ls.subrange(i + 1, j));
            }
        } else if has_colon(rest) {
            lemma_chars_sub_block(ls, i, j);
            lemma_seq_rest_shorter(ls[i]);
            lemma_chars_cons(rest, ls.subrange(i + 1, j));
            lemma_block_errors_invalid(seq![rest] + ls.subrange(i + 1, j));
        }
    }
}

/// A mapping entry fails only with `InvalidFormat`.
pub proof fn lemma_map_entry_errors(ls: Seq<Seq<char>>, i: int)
    ensures
        spec_parse_map_entry(ls, i) is Err ==> spec_parse_map_entry(ls, i) == Err::<
            (Seq<char>, DataView),
            YAMLParseError,
        >(YAMLParseError::InvalidFormat),
    decreases chars_total(ls), ls.len() - i, 0int,
{
    if 0 <= i < ls.len() && trim_of(ls[i]).len() > 0 {
        let c = indent_of(ls[i]);
        let t = trim_of(ls[i]);
        let v = map_val_of(t);
        let j = block_end(ls, i + 1, c);
        lemma_block_end_bounds(ls, i + 1, c);
        lemma_trim_shape(ls[i]);
        if map_key_of(t).len() > 0 && !is_literal_marker(v) && v.len() == 0 && has_content(
            ls,
            i + 1,
            j,
        ) {
            lemma_chars_sub_block(ls, i, j);
            lemma_block_errors_invalid(ls.subrange(i + 1, j));
        }
    }
}

/// A parse step fails only with `InvalidFormat`.
pub proof fn lemma_step_errors(ls: Seq<Seq<char>>, i: int, st: StV)
    ensures
        spec_parse_step(ls, i, st) is Err ==> spec_parse_step(ls, i, st) == Err::<
            Seq<DataView>,
            YAMLParseError,
        >(YAMLParseError::InvalidFormat),
    decreases chars_total(ls), ls.len() - i, 1int,
{
    if 0 <= i < ls.len() {
        lemma_item_end_bounds(ls, i);
        if blank_at(ls, i) {
            lemma_step_errors(ls, i + 1, st);
        } else {
            let t = trim_of(ls[i]);
            if is_seq_line(t) {
                lemma_seq_item_errors(ls, i);
                if spec_parse_seq_item(ls, i) is Ok {
                    let item = spec_parse_seq_item(ls, i)->Ok_0;
                    let st2 = match st.group {
                        GroupV::InSeq(s) => StV {
                            frags: st.frags,
                            group: GroupV::InSeq(s.push(item)),
                        },
                        _ => StV { frags: finalize_frags(st), group: GroupV::InSeq(seq![item]) },
                    };
                    lemma_step_errors(ls, item_end(ls, i), st2);
                }
            } else if has_colon(t) {
                lemma_map_entry_errors(ls, i);
                if spec_parse_map_entry(ls, i) is Ok {
                    let kv = spec_parse_map_entry(ls, i)->Ok_0;
                    let st2 = match st.group {
                        GroupV::InMap(m) => StV {
                            frags: st.frags,
                            group: GroupV::InMap(m.insert(kv.0, kv.1)),
                        },
                        _ => StV {
                            frags: finalize_frags(st),
                            group: GroupV::InMap(Map::empty().insert(kv.0, kv.1)),
                        },
                    };
                    lemma_step_errors(ls, item_end(ls, i), st2);
                }
            } else {
                let st2 = match st.group {
                    GroupV::InText(x) => StV {
                        frags: st.frags,
                        group: GroupV::InText(x + seq![' '] + t),
                    },
                    _ => StV { frags: finalize_frags(st), group: GroupV::InText(t) },
                };
                lemma_step_errors(ls, i + 1, st2);
            }
        }
    }
}

/// A block parse fails only with `InvalidFormat`: `EmptyInput` belongs to the
/// whole document alone.
pub proof fn lemma_block_errors_invalid(ls: Seq<Seq<char>>)
    ensures
        spec_parse_block(ls) is Err ==> spec_parse_block(ls) == Err::<DataView, YAMLParseError>(
            YAMLParseError::InvalidFormat,
        ),
    decreases chars_total(ls), ls.len() + 1, 0int,
{
    lemma_step_errors(ls, 0, StV { frags: Seq::empty(), group: GroupV::Idle });
}

/// Parses a document into a value tree.
///
/// Returns `EmptyInput` exactly when the text trims to nothing, and otherwise
/// the parse of the document's lines: a tree whose model is
/// `spec_parse(yaml@)`, well formed throughout. Exactly one of the two
/// outcomes holds, and the result is a function of the text alone.
pub fn parse_yaml(yaml: &str) -> (r: Result<YAMLData, YAMLParseError>)
    ensures
        match r {
            Ok(v) => spec_parse(yaml@) == Ok::<DataView, YAMLParseError>(v@) && v.wf(),
            Err(e) => spec_parse(yaml@) == Err::<DataView, YAMLParseError>(e),
        },
        trim_of(yaml@).len() == 0 <==> r == Err::<YAMLData, YAMLParseError>(
            YAMLParseError::EmptyInput,
        ),
{
    let whole = line_trim(yaml);
    if whole.as_str().is_empty() {
        return Err(YAMLParseError::EmptyInput);
    }
    let lines = split_lines(yaml);
    let r = parse_lines(lines);
    proof {
        if r is Err {
            lemma_block_errors_invalid(spec_lines(yaml@));
        }
    }
    r
}

} // verus!
