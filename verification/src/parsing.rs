//! Formatting a structured textual dump into lines, and grouping the lines
//! into a display tree.
//!
//! [`format_strings`] normalizes a debug-style rendering of a document:
//! every comma becomes a line break, every bracket or brace gets a line break
//! on its inner side, and quoting artifacts are blanked out.
//! [`split_strings`] cuts the result at line breaks and trims each line.
//! [`group_lines`] then parses the line sequence into a tree: a line holding
//! an opening delimiter starts a nested group labeled by that line, a line
//! holding a closing delimiter ends the current group, and every other line
//! is a leaf.

use vstd::prelude::*;

use crate::text::push_char;
use crate::tree::Node;
use crate::tree::NodeView;
use crate::tree::views_of;

verus! {

broadcast use vstd::seq::group_seq_axioms, vstd::std_specs::vec::group_vec_axioms;

/// What one character of the raw text becomes in the formatted text.
pub open spec fn fmt_char(c: char) -> Seq<char> {
    if c == ',' {
        seq!['\n']
    } else if c == '{' {
        seq!['{', '\n']
    } else if c == '}' {
        seq!['\n', '}']
    } else if c == '[' {
        seq!['[', '\n']
    } else if c == ']' {
        seq!['\n', ']']
    } else if c == '"' || c == '\'' {
        seq![' ']
    } else {
        seq![c]
    }
}

/// Whether the text starts with the wrapper marker `Str(`.
pub open spec fn starts_str_wrapper(s: Seq<char>) -> bool {
    s.len() >= 4 && s[0] == 'S' && s[1] == 't' && s[2] == 'r' && s[3] == '('
}

/// Whether the text starts with the wrapper marker `Some(`.
pub open spec fn starts_some_wrapper(s: Seq<char>) -> bool {
    s.len() >= 5 && s[0] == 'S' && s[1] == 'o' && s[2] == 'm' && s[3] == 'e' && s[4] == '('
}

/// The formatted text: wrapper markers are blanked to one space, and every
/// other character is rewritten by [`fmt_char`].
pub open spec fn spec_format(s: Seq<char>) -> Seq<char>
    decreases s.len(),
{
    if s.len() == 0 {
        Seq::empty()
    } else if starts_str_wrapper(s) {
        seq![' '] + spec_format(s.skip(4))
    } else if starts_some_wrapper(s) {
        seq![' '] + spec_format(s.skip(5))
    } else {
        fmt_char(s[0]) + spec_format(s.skip(1))
    }
}

/// Normalize a debug-style rendering: line breaks around structure, and
/// quoting artifacts blanked out. A total transformation — no input fails.
pub fn format_strings(string: String) -> (r: String)
    ensures
        r@ == spec_format(string@),
{
    let s = string.as_str();
    let n = s.unicode_len();
    let mut out = String::new();
    let mut i: usize = 0;
    proof {
        assert(s@.skip(0) =~= s@);
        assert(out@ + spec_format(s@) =~= spec_format(s@));
    }
    while i < n
        invariant
            n == s@.len(),
            s@ == string@,
            i <= n,
            spec_format(s@) == out@ + spec_format(s@.skip(i as int)),
        decreases n - i,
    {
        let ghost rem = s@.skip(i as int);
        let ghost out0 = out@;
        if n - i > 3 && s.get_char(i) == 'S' && s.get_char(i + 1) == 't' && s.get_char(i + 2)
            == 'r' && s.get_char(i + 3) == '(' {
            proof {
                assert(starts_str_wrapper(rem));
                assert(rem.skip(4) =~= s@.skip(i + 4));
            }
            push_char(&mut out, ' ');
            proof {
                assert(out@ =~= out0 + seq![' ']);
                assert(out0 + (seq![' '] + spec_format(s@.skip(i + 4))) =~= out@ + spec_format(
                    s@.skip(i + 4),
                ));
            }
            i = i + 4;
        } else if n - i > 4 && s.get_char(i) == 'S' && s.get_char(i + 1) == 'o' && s.get_char(i + 2)
            == 'm' && s.get_char(i + 3) == 'e' && s.get_char(i + 4) == '(' {
            proof {
                assert(starts_some_wrapper(rem));
                assert(!starts_str_wrapper(rem));
                assert(rem.skip(5) =~= s@.skip(i + 5));
            }
            push_char(&mut out, ' ');
            proof {
                assert(out@ =~= out0 + seq![' ']);
                assert(out0 + (seq![' '] + spec_format(s@.skip(i + 5))) =~= out@ + spec_format(
                    s@.skip(i + 5),
                ));
            }
            i = i + 5;
        } else {
            let c = s.get_char(i);
            proof {
                assert(rem[0] == c);
                assert(!starts_str_wrapper(rem) && !starts_some_wrapper(rem)) by {
                    if starts_str_wrapper(rem) {
                        assert(s@[i + 1] == 't' && s@[i + 2] == 'r' && s@[i + 3] == '(');
                    }
                    if starts_some_wrapper(rem) {
                        assert(s@[i + 1] == 'o' && s@[i + 2] == 'm' && s@[i + 3] == 'e' && s@[i + 4]
                            == '(');
                    }
                }
                assert(rem.skip(1) =~= s@.skip(i + 1));
            }
            if c == ',' {
                push_char(&mut out, '\n');
            } else if c == '{' {
                push_char(&mut out, '{');
                push_char(&mut out, '\n');
            } else if c == '}' {
                push_char(&mut out, '\n');
                push_char(&mut out, '}');
            } else if c == '[' {
                push_char(&mut out, '[');
                push_char(&mut out, '\n');
            } else if c == ']' {
                push_char(&mut out, '\n');
                push_char(&mut out, ']');
            } else if c == '"' || c == '\'' {
                push_char(&mut out, ' ');
            } else {
                push_char(&mut out, c);
            }
            proof {
                assert(out@ =~= out0 + fmt_char(c));
                assert(out0 + (fmt_char(c) + spec_format(s@.skip(i + 1))) =~= out@ + spec_format(
                    s@.skip(i + 1),
                ));
            }
            i = i + 1;
        }
    }
    proof {
        assert(s@.skip(n as int) =~= Seq::<char>::empty());
        assert(out@ =~= spec_format(s@));
    }
    out
}

/// The characters the trimming strips: the white-space characters.
pub open spec fn is_space_char(c: char) -> bool {
    ||| c == '\u{0009}'
    ||| c == '\u{000A}'
    ||| c == '\u{000B}'
    ||| c == '\u{000C}'
    ||| c == '\u{000D}'
    ||| c == ' '
    ||| c == '\u{0085}'
    ||| c == '\u{00A0}'
    ||| c == '\u{1680}'
    ||| ('\u{2000}' <= c && c <= '\u{200A}')
    ||| c == '\u{2028}'
    ||| c == '\u{2029}'
    ||| c == '\u{202F}'
    ||| c == '\u{205F}'
    ||| c == '\u{3000}'
}

/// Whether the character is white space, by the same table the
/// specification uses.
pub fn is_space(c: char) -> (r: bool)
    ensures
        r == is_space_char(c),
{
    c == '\u{0009}' || c == '\u{000A}' || c == '\u{000B}' || c == '\u{000C}' || c == '\u{000D}'
        || c == ' ' || c == '\u{0085}' || c == '\u{00A0}' || c == '\u{1680}' || ('\u{2000}' <= c
        && c <= '\u{200A}') || c == '\u{2028}' || c == '\u{2029}' || c == '\u{202F}' || c
        == '\u{205F}' || c == '\u{3000}'
}

/// The text without its leading white space.
pub open spec fn trim_front(s: Seq<char>) -> Seq<char>
    decreases s.len(),
{
    if s.len() > 0 && is_space_char(s[0]) {
        trim_front(s.drop_first())
    } else {
        s
    }
}

/// The text without its trailing white space.
pub open spec fn trim_back(s: Seq<char>) -> Seq<char>
    decreases s.len(),
{
    if s.len() > 0 && is_space_char(s.last()) {
        trim_back(s.drop_last())
    } else {
        s
    }
}

/// The text without leading and trailing white space.
pub open spec fn trim_spec(s: Seq<char>) -> Seq<char> {
    trim_back(trim_front(s))
}

proof fn lemma_trim_front(s: Seq<char>, a: int)
    requires
        0 <= a <= s.len(),
        forall|j: int| 0 <= j < a ==> is_space_char(s[j]),
        a < s.len() ==> !is_space_char(s[a]),
    ensures
        trim_front(s) == s.skip(a),
    decreases a,
{
    if a == 0 {
        assert(s.skip(0) =~= s);
    } else {
        assert(is_space_char(s[0]));
        lemma_trim_front(s.drop_first(), a - 1);
        assert(s.drop_first().skip(a - 1) =~= s.skip(a));
    }
}

proof fn lemma_trim_back(s: Seq<char>, b: int)
    requires
        0 <= b <= s.len(),
        forall|j: int| b <= j < s.len() ==> is_space_char(s[j]),
        b > 0 ==> !is_space_char(s[b - 1]),
    ensures
        trim_back(s) == s.take(b),
    decreases s.len() - b,
{
    if b == s.len() {
        assert(s.take(b) =~= s);
    } else {
        assert(is_space_char(s.last()));
        lemma_trim_back(s.drop_last(), b);
        assert(s.drop_last().take(b) =~= s.take(b));
    }
}

/// The trimmed text, as a fresh string.
fn trim_chars(cur: &Vec<char>) -> (r: String)
    ensures
        r@ == trim_spec(cur@),
{
    let mut a: usize = 0;
    while a < cur.len() && is_space(cur[a])
        invariant
            a <= cur.len(),
            forall|j: int| 0 <= j < a ==> is_space_char(cur@[j]),
        decreases cur.len() - a,
    {
        a = a + 1;
    }
    let mut b: usize = cur.len();
    while b > a && is_space(cur[b - 1])
        invariant
            a <= b <= cur.len(),
            forall|j: int| b <= j < cur.len() ==> is_space_char(cur@[j]),
        decreases b,
    {
        b = b - 1;
    }
    proof {
        lemma_trim_front(cur@, a as int);
        if b == a {
            // Everything from `a` on was white space: the trimmed text is
            // empty.
            lemma_trim_back(cur@.skip(a as int), 0);
        } else {
            lemma_trim_back(cur@.skip(a as int), b - a);
        }
        assert(trim_spec(cur@) =~= cur@.subrange(a as int, b as int));
    }
    let mut out = String::new();
    let mut i: usize = a;
    while i < b
        invariant
            a <= i <= b <= cur.len(),
            out@ == cur@.subrange(a as int, i as int),
        decreases b - i,
    {
        push_char(&mut out, cur[i]);
        proof {
            assert(cur@.subrange(a as int, i as int).push(cur@[i as int]) =~= cur@.subrange(
                a as int,
                i + 1,
            ));
        }
        i = i + 1;
    }
    proof {
        assert(out@ == cur@.subrange(a as int, b as int));
    }
    out
}

/// The lines of the text: cut at every line break, each piece trimmed.
/// `cur` is the part of the current line read so far.
pub open spec fn split_from(s: Seq<char>, cur: Seq<char>) -> Seq<Seq<char>>
    decreases s.len(),
{
    if s.len() == 0 {
        seq![trim_spec(cur)]
    } else if s[0] == '\n' {
        seq![trim_spec(cur)] + split_from(s.drop_first(), Seq::empty())
    } else {
        split_from(s.drop_first(), cur.push(s[0]))
    }
}

/// The trimmed lines of the formatted text.
pub open spec fn spec_split(s: Seq<char>) -> Seq<Seq<char>> {
    split_from(s, Seq::empty())
}

proof fn lemma_map_string_views_push(s: Seq<String>, x: String)
    ensures
        (s.push(x)).map_values(|t: String| t@) =~= s.map_values(|t: String| t@).push(x@),
{
}

/// Cut the formatted text at line breaks and trim each piece. The result
/// always holds at least one line.
pub fn split_strings(formatted: String) -> (r: Vec<String>)
    ensures
        r@.map_values(|t: String| t@) == spec_split(formatted@),
        r@.len() > 0,
{
    let s = formatted.as_str();
    let n = s.unicode_len();
    let mut out: Vec<String> = Vec::new();
    let mut cur: Vec<char> = Vec::new();
    let mut i: usize = 0;
    proof {
        assert(s@.skip(0) =~= s@);
        assert(out@.map_values(|t: String| t@) + split_from(s@, cur@) =~= split_from(s@, cur@));
    }
    while i < n
        invariant
            n == s@.len(),
            s@ == formatted@,
            i <= n,
            spec_split(s@) =~= out@.map_values(|t: String| t@) + split_from(
                s@.skip(i as int),
                cur@,
            ),
        decreases n - i,
    {
        let ghost rem = s@.skip(i as int);
        let ghost out0 = out@;
        let ghost cur0 = cur@;
        let c = s.get_char(i);
        proof {
            assert(rem[0] == c);
            assert(rem.drop_first() =~= s@.skip(i + 1));
        }
        if c == '\n' {
            let line = trim_chars(&cur);
            out.push(line);
            cur = Vec::new();
            proof {
                lemma_map_string_views_push(out0, out@[out0.len() as int]);
                assert(out@.map_values(|t: String| t@) =~= out0.map_values(|t: String| t@).push(
                    trim_spec(cur0),
                ));
                assert(out0.map_values(|t: String| t@) + (seq![trim_spec(cur0)] + split_from(
                    s@.skip(i + 1),
                    Seq::empty(),
                )) =~= out@.map_values(|t: String| t@) + split_from(s@.skip(i + 1), cur@));
            }
        } else {
            cur.push(c);
        }
        i = i + 1;
    }
    proof {
        assert(s@.skip(n as int) =~= Seq::<char>::empty());
    }
    let line = trim_chars(&cur);
    let ghost out1 = out@;
    out.push(line);
    proof {
        lemma_map_string_views_push(out1, out@[out1.len() as int]);
        assert(out@.map_values(|t: String| t@) =~= out1.map_values(|t: String| t@) + seq![
            trim_spec(cur@),
        ]);
        assert(out@.map_values(|t: String| t@) =~= spec_split(formatted@));
    }
    out
}

/// Whether the line holds an opening delimiter and so starts a nested group.
pub open spec fn line_opens(s: Seq<char>) -> bool {
    exists|j: int| 0 <= j < s.len() && (s[j] == '{' || s[j] == '[')
}

/// Whether the line holds a closing delimiter. A line that also opens counts
/// as opening, not closing.
pub open spec fn line_closes(s: Seq<char>) -> bool {
    exists|j: int| 0 <= j < s.len() && (s[j] == '}' || s[j] == ']')
}

/// Whether the line holds `{` or `[`.
fn contains_open(s: &String) -> (r: bool)
    ensures
        r == line_opens(s@),
{
    let t = s.as_str();
    let n = t.unicode_len();
    let mut j: usize = 0;
    while j < n
        invariant
            n == t@.len(),
            t@ == s@,
            j <= n,
            forall|k: int| 0 <= k < j ==> !(s@[k] == '{' || s@[k] == '['),
        decreases n - j,
    {
        let c = t.get_char(j);
        if c == '{' || c == '[' {
            return true;
        }
        j = j + 1;
    }
    false
}

/// Whether the line holds `}` or `]`.
fn contains_close(s: &String) -> (r: bool)
    ensures
        r == line_closes(s@),
{
    let t = s.as_str();
    let n = t.unicode_len();
    let mut j: usize = 0;
    while j < n
        invariant
            n == t@.len(),
            t@ == s@,
            j <= n,
            forall|k: int| 0 <= k < j ==> !(s@[k] == '}' || s@[k] == ']'),
        decreases n - j,
    {
        let c = t.get_char(j);
        if c == '}' || c == ']' {
            return true;
        }
        j = j + 1;
    }
    false
}

/// The children parsed from `lines[pos..]`, and the position just past what
/// was consumed. Consuming stops at a closing line (which is dropped) or at
/// the end of the input.
pub open spec fn spec_items(lines: Seq<Seq<char>>, pos: int) -> (Seq<NodeView>, int)
    decreases lines.len() - pos, 0int,
{
    if pos < 0 || pos >= lines.len() {
        (Seq::empty(), pos)
    } else {
        let line = lines[pos];
        if line_opens(line) {
            let (child, p2) = spec_group(Some(line), lines, pos + 1);
            // The nested group consumes at least its own first position and
            // never runs past the end; the bound below only restates that
            // for the termination measure.
            let p2c = if pos + 1 <= p2 <= lines.len() {
                p2
            } else {
                pos + 1
            };
            let (rest, p3) = spec_items(lines, p2c);
            (seq![child] + rest, p3)
        } else if line_closes(line) {
            (Seq::empty(), pos + 1)
        } else {
            let leaf = NodeView { label: line, children: Seq::empty(), leaf: true };
            let (rest, p3) = spec_items(lines, pos + 1);
            (seq![leaf] + rest, p3)
        }
    }
}

/// The group parsed from `lines[pos..]`: its label is `start` when given and
/// the line at `pos` otherwise, and its children are the items that follow.
pub open spec fn spec_group(start: Option<Seq<char>>, lines: Seq<Seq<char>>, pos: int) -> (
    NodeView,
    int,
)
    decreases lines.len() - pos, 1int,
{
    match start {
        Some(label) => {
            let (cs, p2) = spec_items(lines, pos);
            (NodeView { label, children: cs, leaf: false }, p2)
        },
        None => {
            if 0 <= pos < lines.len() {
                let (cs, p2) = spec_items(lines, pos + 1);
                (NodeView { label: lines[pos], children: cs, leaf: false }, p2)
            } else {
                (NodeView { label: Seq::empty(), children: Seq::empty(), leaf: false }, pos)
            }
        },
    }
}

/// Parsing moves forward: the position after the items lies between the
/// starting position and the end of the input.
pub proof fn lemma_items_advance(lines: Seq<Seq<char>>, pos: int)
    requires
        0 <= pos,
    ensures
        pos <= spec_items(lines, pos).1,
        pos <= lines.len() ==> spec_items(lines, pos).1 <= lines.len(),
    decreases lines.len() - pos, 0int,
{
    if pos < lines.len() {
        let line = lines[pos];
        if line_opens(line) {
            lemma_group_advance(Some(line), lines, pos + 1);
            let p2 = spec_group(Some(line), lines, pos + 1).1;
            let p2c = if pos + 1 <= p2 <= lines.len() {
                p2
            } else {
                pos + 1
            };
            lemma_items_advance(lines, p2c);
        } else if line_closes(line) {
        } else {
            lemma_items_advance(lines, pos + 1);
        }
    }
}

/// Parsing a group moves forward in the same way.
pub proof fn lemma_group_advance(start: Option<Seq<char>>, lines: Seq<Seq<char>>, pos: int)
    requires
        0 <= pos,
    ensures
        pos <= spec_group(start, lines, pos).1,
        pos <= lines.len() ==> spec_group(start, lines, pos).1 <= lines.len(),
    decreases lines.len() - pos, 1int,
{
    match start {
        Some(_) => {
            lemma_items_advance(lines, pos);
        },
        None => {
            if pos < lines.len() {
                lemma_items_advance(lines, pos + 1);
            }
        },
    }
}

/// The character sequences of a sequence of strings.
pub open spec fn lines_views(ls: Seq<String>) -> Seq<Seq<char>> {
    ls.map_values(|s: String| s@)
}

proof fn lemma_views_of_push(s: Seq<Node>, x: Node)
    ensures
        views_of(s.push(x)) =~= views_of(s) + seq![x@],
{
    crate::tree::lemma_views_of(s.push(x));
    crate::tree::lemma_views_of(s);
    assert forall|i: int| 0 <= i < s.len() + 1 implies views_of(s.push(x))[i] == (views_of(s)
        + seq![x@])[i] by {
        if i < s.len() {
            assert(s.push(x)[i] == s[i]);
            assert(views_of(s.push(x))[i] == s.push(x)[i]@);
            assert(views_of(s)[i] == s[i]@);
        } else {
            assert(s.push(x)[i] == x);
            assert(views_of(s.push(x))[i] == s.push(x)[i]@);
        }
    }
}

/// Parse one group from `lines`, consuming from `*pos` on. The group's label
/// is `start` when given, otherwise the first consumed line; every following
/// line becomes a leaf child, starts a nested group (when it opens one), or
/// ends this group (when it closes). Running out of input ends the group as
/// well, so unbalanced input degrades gracefully instead of failing.
pub fn group_lines(start: Option<&String>, lines: &Vec<String>, pos: &mut usize) -> (r: Node)
    requires
        *old(pos) <= lines@.len(),
        start is None ==> *old(pos) < lines@.len(),
    ensures
        ({
            let st = match start {
                Some(s) => Some(s@),
                None => None,
            };
            let (nv, p2) = spec_group(st, lines_views(lines@), *old(pos) as int);
            r@ == nv && *final(pos) == p2
        }),
    decreases lines@.len() - *old(pos),
{
    let ghost l = lines_views(lines@);
    let label: String;
    match start {
        Some(s) => {
            label = s.clone();
        },
        None => {
            let p = *pos;
            let n = lines.len();
            proof {
                assert(p < n);
            }
            label = lines[p].clone();
            *pos = p + 1;
        },
    }
    let ghost items_start = *pos as int;
    let mut children: Vec<Node> = Vec::new();
    proof {
        crate::tree::lemma_views_of(children@);
    }
    while *pos < lines.len()
        invariant_except_break
            *old(pos) <= items_start <= *pos <= lines@.len(),
            l == lines_views(lines@),
            start is None ==> items_start == *old(pos) + 1,
            start is Some ==> items_start == *old(pos),
            spec_items(l, items_start).0 =~= views_of(children@) + spec_items(l, *pos as int).0,
            spec_items(l, items_start).1 == spec_items(l, *pos as int).1,
        ensures
            *old(pos) < *pos || items_start == *pos,
            *pos <= lines@.len(),
            spec_items(l, items_start).0 =~= views_of(children@),
            spec_items(l, items_start).1 == *pos as int,
        decreases lines@.len() - *pos,
    {
        let p = *pos;
        let line = &lines[p];
        *pos = p + 1;
        proof {
            assert(l[p as int] == line@);
        }
        if contains_open(line) {
            let ghost p2 = spec_group(Some(line@), l, p + 1).1;
            proof {
                lemma_group_advance(Some(line@), l, p + 1);
            }
            let child = group_lines(Some(line), lines, pos);
            let ghost cs0 = children@;
            children.push(child);
            proof {
                lemma_views_of_push(cs0, child);
                assert(spec_items(l, items_start).0 =~= views_of(children@) + spec_items(
                    l,
                    *pos as int,
                ).0);
            }
        } else if contains_close(line) {
            proof {
                assert(spec_items(l, p as int) == (Seq::<NodeView>::empty(), p + 1));
                assert(spec_items(l, items_start).0 =~= views_of(children@));
            }
            break ;
        } else {
            let child = Node::new_leaf(line.clone());
            let ghost cs0 = children@;
            children.push(child);
            proof {
                lemma_views_of_push(cs0, child);
                assert(child@ == NodeView { label: line@, children: Seq::empty(), leaf: true });
                assert(spec_items(l, items_start).0 =~= views_of(children@) + spec_items(
                    l,
                    *pos as int,
                ).0);
            }
        }
    }
    let r = Node::new(label, children);
    proof {
        assert(r@.children == views_of(children@));
    }
    r
}

/// How often a character occurs in a text.
pub open spec fn count_char(s: Seq<char>, c: char) -> nat
    decreases s.len(),
{
    if s.len() == 0 {
        0
    } else {
        (if s[0] == c {
            1nat
        } else {
            0nat
        }) + count_char(s.drop_first(), c)
    }
}

proof fn lemma_count_add(a: Seq<char>, b: Seq<char>, c: char)
    ensures
        count_char(a + b, c) == count_char(a, c) + count_char(b, c),
    decreases a.len(),
{
    if a.len() == 0 {
        assert(a + b =~= b);
    } else {
        assert((a + b).drop_first() =~= a.drop_first() + b);
        assert((a + b)[0] == a[0]);
        lemma_count_add(a.drop_first(), b, c);
    }
}

proof fn lemma_count_none(s: Seq<char>, c: char)
    requires
        forall|j: int| 0 <= j < s.len() ==> s[j] != c,
    ensures
        count_char(s, c) == 0,
    decreases s.len(),
{
    if s.len() > 0 {
        lemma_count_none(s.drop_first(), c);
    }
}

proof fn lemma_count_single(a: char, c: char)
    ensures
        count_char(seq![a], c) == if a == c {
            1nat
        } else {
            0nat
        },
{
    assert(seq![a].drop_first() =~= Seq::<char>::empty());
    assert(count_char(Seq::<char>::empty(), c) == 0);
}

/// The formatter never adds or drops a structural delimiter: each of `{`,
/// `}`, `[` and `]` occurs in the formatted text exactly as often as in the
/// raw text, so no unmatched delimiter is introduced that was not in the
/// source.
pub proof fn lemma_format_preserves_delimiters(s: Seq<char>, c: char)
    requires
        c == '{' || c == '}' || c == '[' || c == ']',
    ensures
        count_char(spec_format(s), c) == count_char(s, c),
    decreases s.len(),
{
    if s.len() == 0 {
    } else if starts_str_wrapper(s) {
        lemma_format_preserves_delimiters(s.skip(4), c);
        lemma_count_add(seq![' '], spec_format(s.skip(4)), c);
        lemma_count_single(' ', c);
        assert(s.take(4) + s.skip(4) =~= s);
        lemma_count_add(s.take(4), s.skip(4), c);
        lemma_count_none(s.take(4), c);
    } else if starts_some_wrapper(s) {
        lemma_format_preserves_delimiters(s.skip(5), c);
        lemma_count_add(seq![' '], spec_format(s.skip(5)), c);
        lemma_count_single(' ', c);
        assert(s.take(5) + s.skip(5) =~= s);
        lemma_count_add(s.take(5), s.skip(5), c);
        lemma_count_none(s.take(5), c);
    } else {
        lemma_format_preserves_delimiters(s.skip(1), c);
        lemma_count_add(fmt_char(s[0]), spec_format(s.skip(1)), c);
        assert(seq![s[0]] + s.skip(1) =~= s);
        lemma_count_add(seq![s[0]], s.skip(1), c);
        lemma_count_single(s[0], c);
        let x = s[0];
        if x == ',' {
            lemma_count_single('\n', c);
        } else if x == '{' {
            assert(fmt_char(x) =~= seq!['{'] + seq!['\n']);
            lemma_count_add(seq!['{'], seq!['\n'], c);
            lemma_count_single('{', c);
            lemma_count_single('\n', c);
        } else if x == '}' {
            assert(fmt_char(x) =~= seq!['\n'] + seq!['}']);
            lemma_count_add(seq!['\n'], seq!['}'], c);
            lemma_count_single('}', c);
            lemma_count_single('\n', c);
        } else if x == '[' {
            assert(fmt_char(x) =~= seq!['['] + seq!['\n']);
            lemma_count_add(seq!['['], seq!['\n'], c);
            lemma_count_single('[', c);
            lemma_count_single('\n', c);
        } else if x == ']' {
            assert(fmt_char(x) =~= seq!['\n'] + seq![']']);
            lemma_count_add(seq!['\n'], seq![']'], c);
            lemma_count_single(']', c);
            lemma_count_single('\n', c);
        } else if x == '"' || x == '\'' {
            lemma_count_single(' ', c);
        } else {
            lemma_count_single(x, c);
        }
    }
}

/// Pre-order serialization: the labels of a forest, in traversal order.
pub open spec fn labels_of_forest(ns: Seq<NodeView>) -> Seq<Seq<char>>
    decreases ns,
{
    if ns.len() == 0 {
        Seq::empty()
    } else {
        labels_of(ns[0]) + labels_of_forest(ns.drop_first())
    }
}

/// Pre-order serialization: a node's label followed by its children's.
pub open spec fn labels_of(n: NodeView) -> Seq<Seq<char>>
    decreases n,
{
    seq![n.label] + labels_of_forest(n.children)
}

/// A line that the parsed tree keeps as a label: one that opens a group or
/// is a leaf; only pure closing lines are dropped.
pub open spec fn line_kept(l: Seq<char>) -> bool {
    line_opens(l) || !line_closes(l)
}

/// The kept-line test, as a value, so every filter speaks of one predicate.
pub open spec fn kept_pred() -> spec_fn(Seq<char>) -> bool {
    |l: Seq<char>| line_kept(l)
}

proof fn lemma_forest_cons(x: NodeView, rest: Seq<NodeView>)
    ensures
        labels_of_forest(seq![x] + rest) =~= labels_of(x) + labels_of_forest(rest),
{
    let ns = seq![x] + rest;
    assert(ns[0] == x);
    assert(ns.drop_first() =~= rest);
}

proof fn lemma_filter_single(l: Seq<char>)
    ensures
        seq![l].filter(kept_pred()) =~= if line_kept(l) {
            seq![l]
        } else {
            Seq::<Seq<char>>::empty()
        },
{
    let s = seq![l];
    assert(s.drop_last() =~= Seq::<Seq<char>>::empty());
    assert(s.last() == l);
    reveal_with_fuel(Seq::filter, 2);
}

/// The labels of the items parsed from `lines[pos..]` are exactly the
/// consumed lines that are kept, in order.
proof fn lemma_items_labels(lines: Seq<Seq<char>>, pos: int)
    requires
        0 <= pos <= lines.len(),
    ensures
        labels_of_forest(spec_items(lines, pos).0) =~= lines.subrange(
            pos,
            spec_items(lines, pos).1,
        ).filter(kept_pred()),
    decreases lines.len() - pos, 0int,
{
    let (cs, p3) = spec_items(lines, pos);
    if pos >= lines.len() {
        assert(lines.subrange(pos, pos) =~= Seq::<Seq<char>>::empty());
        reveal_with_fuel(Seq::filter, 1);
    } else {
        let line = lines[pos];
        if line_opens(line) {
            lemma_group_advance(Some(line), lines, pos + 1);
            lemma_items_advance(lines, pos + 1);
            let (child, pg) = spec_group(Some(line), lines, pos + 1);
            let (rest, _) = spec_items(lines, pg);
            lemma_items_advance(lines, pg);
            lemma_items_labels(lines, pos + 1);
            lemma_items_labels(lines, pg);
            lemma_forest_cons(child, rest);
            assert(labels_of(child) =~= seq![line] + labels_of_forest(child.children));
            lemma_filter_single(line);
            Seq::filter_distributes_over_add(
                seq![line] + lines.subrange(pos + 1, pg),
                lines.subrange(pg, p3),
                kept_pred(),
            );
            Seq::filter_distributes_over_add(
                seq![line],
                lines.subrange(pos + 1, pg),
                kept_pred(),
            );
            assert(seq![line] + lines.subrange(pos + 1, pg) + lines.subrange(pg, p3)
                =~= lines.subrange(pos, p3));
        } else if line_closes(line) {
            assert(lines.subrange(pos, pos + 1) =~= seq![line]);
            lemma_filter_single(line);
        } else {
            lemma_items_advance(lines, pos + 1);
            lemma_items_labels(lines, pos + 1);
            let leaf = NodeView { label: line, children: Seq::empty(), leaf: true };
            let (rest, _) = spec_items(lines, pos + 1);
            lemma_forest_cons(leaf, rest);
            assert(labels_of(leaf) =~= seq![line]);
            lemma_filter_single(line);
            Seq::filter_distributes_over_add(
                seq![line],
                lines.subrange(pos + 1, p3),
                kept_pred(),
            );
            assert(seq![line] + lines.subrange(pos + 1, p3) =~= lines.subrange(pos, p3));
        }
    }
}

/// Whether the line sequence is bracket-balanced: parsing consumes every
/// line, with no unmatched closing line cutting the parse short.
pub open spec fn balanced(lines: Seq<Seq<char>>) -> bool {
    lines.len() > 0 && spec_group(None, lines, 0).1 == lines.len()
}

/// For bracket-balanced input, re-serializing the parsed tree in pre-order
/// reproduces the original label sequence: the first line, followed by every
/// later line except the pure closing lines, in document order.
pub proof fn lemma_group_round_trip(lines: Seq<Seq<char>>)
    requires
        balanced(lines),
    ensures
        labels_of(spec_group(None, lines, 0).0) =~= seq![lines[0]] + lines.subrange(
            1,
            lines.len() as int,
        ).filter(kept_pred()),
{
    lemma_items_labels(lines, 1);
}

} // verus!
