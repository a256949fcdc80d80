//! Rule-file line parsing: each rule line is split into its regex
//! source and its action source, quotes are stripped, and the lines of
//! the rule section are collected into pattern-action pairs.

use vstd::prelude::*;
use vstd::string::*;

use crate::text::{chars_to_string, to_char_vec};

verus! {

/// Whether the character counts as whitespace. Names what
/// `char::is_whitespace` returns.
pub uninterp spec fn char_is_space(c: char) -> bool;

/// Relies on char::is_whitespace: true exactly on characters with the
/// Unicode `White_Space` property, a function of the character alone.
#[verifier::external_body]
fn is_space(c: char) -> (r: bool)
    ensures
        r == char_is_space(c),
{
    c.is_whitespace()
}

/// The characters of `s[i..]` that are not double quotes, appended to
/// `acc`.
pub open spec fn strip_quotes_from(s: Seq<char>, i: int, acc: Seq<char>) -> Seq<char>
    decreases s.len() - i,
{
    if i < 0 || i >= s.len() {
        acc
    } else {
        strip_quotes_from(s, i + 1, if s[i] == '"' {
            acc
        } else {
            acc.push(s[i])
        })
    }
}

/// Removes every double quote from a regex source.
pub fn clean_reg(reg: &str) -> (r: String)
    ensures
        r@ == strip_quotes_from(reg@, 0, Seq::empty()),
{
    let cs = to_char_vec(reg);
    let n = cs.len();
    let mut out: Vec<char> = Vec::new();
    let mut i: usize = 0;
    while i < n
        invariant
            n == cs@.len(),
            cs@ == reg@,
            i <= n,
            strip_quotes_from(reg@, i as int, out@) == strip_quotes_from(
                reg@,
                0,
                Seq::<char>::empty(),
            ),
        decreases n - i,
    {
        let c = cs[i];
        if c != '"' {
            out.push(c);
        }
        i = i + 1;
    }
    chars_to_string(&out)
}

/// The characters of `s[i..]` that are not whitespace, appended to
/// `acc`.
pub open spec fn drop_spaces_from(s: Seq<char>, i: int, acc: Seq<char>) -> Seq<char>
    decreases s.len() - i,
{
    if i < 0 || i >= s.len() {
        acc
    } else {
        drop_spaces_from(s, i + 1, if char_is_space(s[i]) {
            acc
        } else {
            acc.push(s[i])
        })
    }
}

/// Removes every whitespace character.
pub fn remove_whitespace(s: &str) -> (r: String)
    ensures
        r@ == drop_spaces_from(s@, 0, Seq::empty()),
{
    let cs = to_char_vec(s);
    let n = cs.len();
    let mut out: Vec<char> = Vec::new();
    let mut i: usize = 0;
    while i < n
        invariant
            n == cs@.len(),
            cs@ == s@,
            i <= n,
            drop_spaces_from(s@, i as int, out@) == drop_spaces_from(
                s@,
                0,
                Seq::<char>::empty(),
            ),
        decreases n - i,
    {
        let c = cs[i];
        if !is_space(c) {
            out.push(c);
        }
        i = i + 1;
    }
    chars_to_string(&out)
}

/// The index of the first non-whitespace character at or after `i`.
pub open spec fn first_nonspace(s: Seq<char>, i: int) -> Option<int>
    decreases s.len() - i,
{
    if i < 0 || i >= s.len() {
        None
    } else if !char_is_space(s[i]) {
        Some(i)
    } else {
        first_nonspace(s, i + 1)
    }
}

/// The line with a leading union-continuation bar removed: when the
/// first non-whitespace character is `|`, everything after it; else
/// the whole line.
pub open spec fn effective_line(s: Seq<char>) -> Seq<char> {
    match first_nonspace(s, 0) {
        Some(j) => if s[j] == '|' {
            s.skip(j + 1)
        } else {
            s
        },
        None => s,
    }
}

/// The splitter state: inside a quoted string, inside an action block,
/// the previous character, the regex text, and the action text.
pub open spec fn split_step(
    st: (bool, bool, char, Seq<char>, Seq<char>),
    c: char,
) -> (bool, bool, char, Seq<char>, Seq<char>) {
    let (ins, ina, last, arg, act) = st;
    if c == '"' && last != '\\' {
        (!ins, ina, c, arg, act)
    } else if c == '{' && last != '\\' {
        (ins, true, c, arg, act)
    } else if c == '}' && last != '\\' {
        (ins, false, c, arg, act)
    } else if c != ' ' {
        if ina {
            (ins, ina, c, arg, act.push(c))
        } else {
            (ins, ina, c, arg.push(c), act)
        }
    } else if ins {
        (ins, ina, c, arg.push(c), act)
    } else {
        (ins, ina, c, arg, act)
    }
}

/// Runs the splitter over `s[i..]`.
pub open spec fn split_run(
    s: Seq<char>,
    i: int,
    st: (bool, bool, char, Seq<char>, Seq<char>),
) -> (bool, bool, char, Seq<char>, Seq<char>)
    decreases s.len() - i,
{
    if i < 0 || i >= s.len() {
        st
    } else {
        split_run(s, i + 1, split_step(st, s[i]))
    }
}

/// The regex and action texts a rule line splits into.
pub open spec fn spec_split_line(s: Seq<char>) -> (Seq<char>, Seq<char>) {
    let st = split_run(
        effective_line(s),
        0,
        (false, false, '#', Seq::<char>::empty(), Seq::<char>::empty()),
    );
    (st.3, st.4)
}

/// Splits one rule line into its regex text and its action text:
/// spaces are kept only inside quotes, braces delimit the action, and
/// a leading `|` continues the previous rule's alternatives.
pub fn split_line(line: &str) -> (r: (String, String))
    ensures
        r.0@ == spec_split_line(line@).0,
        r.1@ == spec_split_line(line@).1,
{
    let cs = to_char_vec(line);
    let n = cs.len();
    // Leading-bar continuation: find the first non-whitespace character.
    let mut i: usize = 0;
    while i < n && is_space(cs[i])
        invariant
            n == cs@.len(),
            cs@ == line@,
            i <= n,
            first_nonspace(line@, 0) == first_nonspace(line@, i as int),
        decreases n - i,
    {
        i = i + 1;
    }
    let start: usize = if i < n && cs[i] == '|' {
        proof {
            assert(first_nonspace(line@, i as int) == Some(i as int));
        }
        i + 1
    } else {
        proof {
            if i < n {
                assert(first_nonspace(line@, i as int) == Some(i as int));
            } else {
                assert(first_nonspace(line@, i as int) is None);
            }
        }
        0
    };
    let ghost eff = effective_line(line@);
    proof {
        assert(eff =~= line@.skip(start as int));
    }
    let mut ins = false;
    let mut ina = false;
    let mut last: char = '#';
    let mut arg: Vec<char> = Vec::new();
    let mut act: Vec<char> = Vec::new();
    let mut k: usize = start;
    while k < n
        invariant
            n == cs@.len(),
            cs@ == line@,
            start <= k <= n,
            eff == line@.skip(start as int),
            split_run(eff, k - start, (ins, ina, last, arg@, act@)) == split_run(
                eff,
                0,
                (false, false, '#', Seq::<char>::empty(), Seq::<char>::empty()),
            ),
        decreases n - k,
    {
        let c = cs[k];
        proof {
            assert(eff[k - start] == line@[k as int]);
        }
        let ghost st0 = (ins, ina, last, arg@, act@);
        if c == '"' && last != '\\' {
            ins = !ins;
        } else if c == '{' && last != '\\' {
            ina = true;
        } else if c == '}' && last != '\\' {
            ina = false;
        } else if c != ' ' {
            if ina {
                act.push(c);
            } else {
                arg.push(c);
            }
        } else if ins {
            arg.push(c);
        }
        last = c;
        proof {
            assert(split_step(st0, eff[k - start]) == (ins, ina, last, arg@, act@));
        }
        k = k + 1;
    }
    proof {
        assert(k - start == eff.len());
    }
    (chars_to_string(&arg), chars_to_string(&act))
}

/// One rule line as a pattern-action pair: the split regex text with
/// its quotes stripped, beside the action text.
pub fn get_tk_act(line: &str) -> (r: (String, String))
    ensures
        r.0@ == strip_quotes_from(spec_split_line(line@).0, 0, Seq::empty()),
        r.1@ == spec_split_line(line@).1,
{
    let split = split_line(line);
    let reg = clean_reg(split.0.as_str());
    (reg, split.1)
}

/// Structural equality of two string slices.
fn str_eq(a: &str, b: &str) -> (r: bool)
    ensures
        r <==> a@ == b@,
{
    let an = a.unicode_len();
    let bn = b.unicode_len();
    if an != bn {
        return false;
    }
    let mut i: usize = 0;
    while i < an
        invariant
            an == a@.len(),
            an == b@.len(),
            i <= an,
            forall|j: int| 0 <= j < i ==> a@[j] == b@[j],
        decreases an - i,
    {
        if a.get_char(i) != b.get_char(i) {
            return false;
        }
        i = i + 1;
    }
    proof {
        assert(a@ =~= b@);
    }
    true
}

/// The pattern occurs somewhere in the string.
pub open spec fn contains_sub(s: Seq<char>, pat: Seq<char>) -> bool {
    exists|j: int|
        0 <= j && j + pat.len() <= s.len() && #[trigger] s.subrange(j, j + pat.len()) == pat
}

/// Decides whether the pattern occurs in the string.
fn contains_str(s: &str, pat: &str) -> (r: bool)
    ensures
        r <==> contains_sub(s@, pat@),
{
    let cs = to_char_vec(s);
    let ps = to_char_vec(pat);
    let n = cs.len();
    let m = ps.len();
    if m > n {
        proof {
            assert(!contains_sub(s@, pat@));
        }
        return false;
    }
    if m == 0 {
        proof {
            assert(s@.subrange(0, 0 + pat@.len() as int) =~= pat@);
            assert(contains_sub(s@, pat@));
        }
        return true;
    }
    let mut j: usize = 0;
    while j <= n - m
        invariant
            n == cs@.len(),
            cs@ == s@,
            m == ps@.len(),
            ps@ == pat@,
            m <= n,
            j <= n - m + 1,
            forall|j2: int|
                0 <= j2 < j ==> #[trigger] s@.subrange(j2, j2 + pat@.len()) != pat@,
        decreases n - m - j + 1,
    {
        let mut k: usize = 0;
        let mut ok = true;
        while k < m && ok
            invariant
                n == cs@.len(),
                cs@ == s@,
                m == ps@.len(),
                ps@ == pat@,
                j + m <= n,
                k <= m,
                ok ==> forall|h: int| 0 <= h < k ==> s@[j + h] == pat@[h],
                !ok ==> s@.subrange(j as int, j + pat@.len()) != pat@,
            decreases m - k + (if ok {
                1int
            } else {
                0int
            }),
        {
            if cs[j + k] != ps[k] {
                proof {
                    assert(s@.subrange(j as int, j + pat@.len())[k as int] != pat@[k as int]);
                }
                ok = false;
            } else {
                k = k + 1;
            }
        }
        if ok {
            proof {
                assert(s@.subrange(j as int, j + pat@.len()) =~= pat@);
            }
            return true;
        }
        j = j + 1;
    }
    proof {
        assert forall|j2: int|
            0 <= j2 && j2 + pat@.len() <= s@.len() implies #[trigger] s@.subrange(
            j2,
            j2 + pat@.len(),
        ) != pat@ by {
            assert(j2 < j);
        }
    }
    false
}

/// The section state while reading rule-file lines: inside the
/// definitions block, inside the rules section, and the pairs read.
pub open spec fn lines_step(
    st: (bool, bool, Seq<(Seq<char>, Seq<char>)>),
    line: Seq<char>,
) -> (bool, bool, Seq<(Seq<char>, Seq<char>)>) {
    let (def, act, out) = st;
    if line == "{"@ {
        if !def && !act {
            (true, act, out)
        } else {
            st
        }
    } else if line == "}"@ {
        if def && !act {
            (false, act, out)
        } else {
            st
        }
    } else if contains_sub(line, "rule actions ="@) {
        if !def && !act {
            (def, true, out)
        } else {
            st
        }
    } else if def {
        st
    } else if act {
        let sp = spec_split_line(line);
        (def, act, out.push((strip_quotes_from(sp.0, 0, Seq::empty()), sp.1)))
    } else {
        st
    }
}

/// Runs the section reader over `ls[i..]`.
pub open spec fn lines_run(
    ls: Seq<Seq<char>>,
    i: int,
    st: (bool, bool, Seq<(Seq<char>, Seq<char>)>),
) -> (bool, bool, Seq<(Seq<char>, Seq<char>)>)
    decreases ls.len() - i,
{
    if i < 0 || i >= ls.len() {
        st
    } else {
        lines_run(ls, i + 1, lines_step(st, ls[i]))
    }
}

/// The views of the collected pattern-action pairs.
pub open spec fn pairs_view(v: Seq<(String, String)>) -> Seq<(Seq<char>, Seq<char>)> {
    v.map_values(|p: (String, String)| (p.0@, p.1@))
}

/// Reads the rule section out of the file's lines: `{` and `}` open
/// and close the definitions block, a `rule actions =` marker opens the
/// rules section, and each following line becomes one pattern-action
/// pair.
pub fn get_line_array(lines: &Vec<String>) -> (r: Vec<(String, String)>)
    ensures
        pairs_view(r@) == lines_run(
            lines@.map_values(|s: String| s@),
            0,
            (false, false, Seq::empty()),
        ).2,
{
    let ghost lv = lines@.map_values(|s: String| s@);
    let n = lines.len();
    let mut def = false;
    let mut act = false;
    let mut out: Vec<(String, String)> = Vec::new();
    proof {
        assert(pairs_view(out@) =~= Seq::<(Seq<char>, Seq<char>)>::empty());
    }
    let mut i: usize = 0;
    while i < n
        invariant
            n == lines@.len(),
            lv == lines@.map_values(|s: String| s@),
            i <= n,
            lines_run(lv, i as int, (def, act, pairs_view(out@))) == lines_run(
                lv,
                0,
                (false, false, Seq::<(Seq<char>, Seq<char>)>::empty()),
            ),
        decreases n - i,
    {
        let line = &lines[i];
        let ghost st0 = (def, act, pairs_view(out@));
        proof {
            assert(lv[i as int] == lines@[i as int]@);
        }
        if str_eq(line.as_str(), "{") {
            if !def && !act {
                def = true;
            }
        } else if str_eq(line.as_str(), "}") {
            if def && !act {
                def = false;
            }
        } else if contains_str(line.as_str(), "rule actions =") {
            if !def && !act {
                act = true;
            }
        } else if def {
        } else if act {
            let entry = get_tk_act(line.as_str());
            let ghost ev = (entry.0@, entry.1@);
            out.push(entry);
            proof {
                assert(pairs_view(out@) =~= st0.2.push(ev));
            }
        }
        proof {
            assert(lines_step(st0, lv[i as int]) == (def, act, pairs_view(out@)));
        }
        i = i + 1;
    }
    out
}

} // verus!
