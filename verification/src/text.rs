//! Character-level text utilities: whitespace trimming and character search,
//! specified over `Seq<char>` and implemented over `&str`.
use vstd::prelude::*;
use vstd::string::StrSliceExecFns;

verus! {

/// The whitespace characters that indentation and trimming recognize.
pub open spec fn is_ws(c: char) -> bool {
    c == ' ' || c == '\t' || c == '\r' || c == '\n'
}

/// The index of the first character at or after `i` that is not whitespace,
/// or the length when none is.
pub open spec fn ws_prefix_end(l: Seq<char>, i: int) -> int
    decreases l.len() - i,
{
    if i < 0 || i >= l.len() {
        l.len() as int
    } else if is_ws(l[i]) {
        ws_prefix_end(l, i + 1)
    } else {
        i
    }
}

/// The index after the last character before `j` that is not whitespace,
/// or 0 when none is.
pub open spec fn ws_suffix_start(l: Seq<char>, j: int) -> int
    decreases j,
{
    if j <= 0 || j > l.len() {
        0
    } else if is_ws(l[j - 1]) {
        ws_suffix_start(l, j - 1)
    } else {
        j
    }
}

/// The number of leading whitespace characters: the indentation column.
pub open spec fn indent_of(l: Seq<char>) -> int {
    ws_prefix_end(l, 0)
}

/// The line with leading and trailing whitespace removed.
pub open spec fn trim_of(l: Seq<char>) -> Seq<char> {
    if ws_prefix_end(l, 0) == l.len() {
        Seq::empty()
    } else {
        l.subrange(ws_prefix_end(l, 0), ws_suffix_start(l, l.len() as int))
    }
}

/// The index of the first occurrence of `ch` at or after `i`, or -1.
pub open spec fn find_char_from(l: Seq<char>, i: int, ch: char) -> int
    decreases l.len() - i,
{
    if i < 0 || i >= l.len() {
        -1
    } else if l[i] == ch {
        i
    } else {
        find_char_from(l, i + 1, ch)
    }
}

/// The index of the first character at or after `i` that is not a dash,
/// or the length when none is.
pub open spec fn dash_prefix_end(l: Seq<char>, i: int) -> int
    decreases l.len() - i,
{
    if i < 0 || i >= l.len() {
        l.len() as int
    } else if l[i] == '-' {
        dash_prefix_end(l, i + 1)
    } else {
        i
    }
}

pub proof fn lemma_ws_prefix_end(l: Seq<char>, i: int)
    requires
        0 <= i <= l.len(),
    ensures
        i <= ws_prefix_end(l, i) <= l.len(),
        forall|k: int| i <= k < ws_prefix_end(l, i) ==> is_ws(l[k]),
        ws_prefix_end(l, i) < l.len() ==> !is_ws(l[ws_prefix_end(l, i)]),
    decreases l.len() - i,
{
    if i < l.len() && is_ws(l[i]) {
        lemma_ws_prefix_end(l, i + 1);
    }
}

pub proof fn lemma_ws_suffix_start(l: Seq<char>, j: int)
    requires
        0 <= j <= l.len(),
    ensures
        0 <= ws_suffix_start(l, j) <= j,
        forall|k: int| ws_suffix_start(l, j) <= k < j ==> is_ws(l[k]),
        ws_suffix_start(l, j) > 0 ==> !is_ws(l[ws_suffix_start(l, j) - 1]),
    decreases j,
{
    if j > 0 && is_ws(l[j - 1]) {
        lemma_ws_suffix_start(l, j - 1);
    }
}

/// The bounds that make `trim_of` a well-formed subrange: when some character
/// is not whitespace, the first such character comes before the suffix start.
pub proof fn lemma_trim_shape(l: Seq<char>)
    ensures
        trim_of(l).len() <= l.len(),
        ws_prefix_end(l, 0) < l.len() ==> ws_prefix_end(l, 0) < ws_suffix_start(
            l,
            l.len() as int,
        ),
        trim_of(l).len() == 0 <==> ws_prefix_end(l, 0) == l.len(),
        trim_of(l).len() > 0 ==> !is_ws(trim_of(l)[0]) && !is_ws(
            trim_of(l)[trim_of(l).len() - 1],
        ),
        forall|k: int| 0 <= k < trim_of(l).len() ==> trim_of(l)[k] == l[ws_prefix_end(l, 0) + k],
{
    lemma_ws_prefix_end(l, 0);
    lemma_ws_suffix_start(l, l.len() as int);
    let pe = ws_prefix_end(l, 0);
    let ss = ws_suffix_start(l, l.len() as int);
    if pe < l.len() {
        if ss <= pe {
            assert(is_ws(l[pe]));
        }
        assert(!is_ws(l[pe]));
        assert(!is_ws(l[ss - 1]));
    }
}

/// A line trims to something exactly when some character of it is not
/// whitespace.
pub proof fn lemma_trim_nonempty_char(l: Seq<char>)
    ensures
        trim_of(l).len() > 0 <==> exists|k: int| 0 <= k < l.len() && !is_ws(l[k]),
{
    lemma_ws_prefix_end(l, 0);
    lemma_trim_shape(l);
    let pe = ws_prefix_end(l, 0);
    if pe < l.len() {
        assert(!is_ws(l[pe]));
    } else {
        assert(forall|k: int| 0 <= k < l.len() ==> is_ws(l[k]));
    }
}

/// Trimming is idempotent.
pub proof fn lemma_trim_idempotent(l: Seq<char>)
    ensures
        trim_of(trim_of(l)) == trim_of(l),
{
    lemma_trim_shape(l);
    let t = trim_of(l);
    if t.len() == 0 {
        assert(ws_prefix_end(t, 0) == 0);
        assert(trim_of(t) =~= t);
    } else {
        assert(!is_ws(t[0]));
        assert(ws_prefix_end(t, 0) == 0);
        assert(!is_ws(t[t.len() - 1]));
        assert(ws_suffix_start(t, t.len() as int) == t.len());
        assert(trim_of(t) =~= t);
    }
}

pub proof fn lemma_find_char_from(l: Seq<char>, i: int, ch: char)
    requires
        0 <= i <= l.len(),
    ensures
        find_char_from(l, i, ch) == -1 ==> forall|k: int| i <= k < l.len() ==> l[k] != ch,
        find_char_from(l, i, ch) != -1 ==> i <= find_char_from(l, i, ch) < l.len() && l[find_char_from(
            l,
            i,
            ch,
        )] == ch && forall|k: int| i <= k < find_char_from(l, i, ch) ==> l[k] != ch,
    decreases l.len() - i,
{
    if i < l.len() && l[i] != ch {
        lemma_find_char_from(l, i + 1, ch);
    }
}

pub proof fn lemma_dash_prefix_end(l: Seq<char>, i: int)
    requires
        0 <= i <= l.len(),
    ensures
        i <= dash_prefix_end(l, i) <= l.len(),
        forall|k: int| i <= k < dash_prefix_end(l, i) ==> l[k] == '-',
        dash_prefix_end(l, i) < l.len() ==> l[dash_prefix_end(l, i)] != '-',
    decreases l.len() - i,
{
    if i < l.len() && l[i] == '-' {
        lemma_dash_prefix_end(l, i + 1);
    }
}

/// Whether `c` counts as whitespace for trimming and indentation.
pub fn is_ws_char(c: char) -> (b: bool)
    ensures
        b == is_ws(c),
{
    c == ' ' || c == '\t' || c == '\r' || c == '\n'
}

/// The indentation column of a line: its count of leading whitespace characters.
pub fn line_indent(s: &str) -> (n: usize)
    ensures
        n == ws_prefix_end(s@, 0),
{
    let len = s.unicode_len();
    let mut i: usize = 0;
    while i < len && is_ws_char(s.get_char(i))
        invariant
            0 <= i <= len,
            len == s@.len(),
            ws_prefix_end(s@, 0) == ws_prefix_end(s@, i as int),
        decreases len - i,
    {
        i = i + 1;
    }
    i
}

/// The line with leading and trailing whitespace removed.
pub fn line_trim(s: &str) -> (t: String)
    ensures
        t@ == trim_of(s@),
{
    let len = s.unicode_len();
    let pe = line_indent(s);
    if pe == len {
        String::new()
    } else {
        let mut j: usize = len;
        while j > 0 && is_ws_char(s.get_char(j - 1))
            invariant
                0 <= j <= len,
                len == s@.len(),
                ws_suffix_start(s@, len as int) == ws_suffix_start(s@, j as int),
            decreases j,
        {
            j = j - 1;
        }
        proof {
            assert(ws_suffix_start(s@, j as int) == j);
            lemma_ws_prefix_end(s@, 0);
            lemma_trim_shape(s@);
        }
        s.substring_char(pe, j).to_owned()
    }
}

/// The index of the first occurrence of `ch` in `s` at or after `from`, if any.
pub fn find_char_at(s: &str, from: usize, ch: char) -> (r: Option<usize>)
    requires
        from <= s@.len(),
    ensures
        match r {
            Some(p) => find_char_from(s@, from as int, ch) == p as int && from <= p < s@.len(),
            None => find_char_from(s@, from as int, ch) == -1,
        },
{
    let len = s.unicode_len();
    let mut i: usize = from;
    while i < len
        invariant
            from <= i <= len,
            len == s@.len(),
            find_char_from(s@, from as int, ch) == find_char_from(s@, i as int, ch),
        decreases len - i,
    {
        if s.get_char(i) == ch {
            return Some(i);
        }
        i = i + 1;
    }
    None
}

} // verus!
