//! A proposed solution: the data model, the loosely-formatted solution text
//! it is parsed from, and its rendering.
//!
//! The text has a fixed shape — `Instance name:`, `Authors:`, `Date:`,
//! `Reference:`, a bare `Solution`, then one `Route <label>: <ids>` line per
//! route — with arbitrary whitespace tolerated around keywords, separators
//! and numbers, and blank lines ignored. Only the instance name and the id
//! lists are kept: the name is matched against the benchmark naming scheme,
//! case-folded and stripped of whitespace (an absent or unparsable name
//! becomes the empty string); route identity is the position of the line in
//! the file, never the printed label; an unparsable id token becomes `0`.

use crate::text::{
    dec_digits, dec_int, digit, is_digit_char, is_ws_char, push_char, push_u64, str_chars,
    tokens_of, usize_token, ws_char,
};
use vstd::prelude::*;

verus! {

/// A parsed solution: the normalized instance name and the routes, each an
/// ordered list of point identifiers (the depot is implicit at both ends and
/// never listed).
#[derive(Debug, PartialEq)]
pub struct Solution {
    pub instance_name: String,
    pub routes: Vec<Vec<usize>>,
}

impl Default for Solution {
    /// An empty solution: no name, no routes.
    fn default() -> (s: Solution)
        ensures
            s.instance_name@ == Seq::<char>::empty(),
            s.routes@ == Seq::<Vec<usize>>::empty(),
    {
        let s = Solution { instance_name: String::new(), routes: Vec::new() };
        proof {
            assert(s.instance_name@ =~= Seq::<char>::empty());
            assert(s.routes@ =~= Seq::<Vec<usize>>::empty());
        }
        s
    }
}

// ---------------------------------------------------------------------------
// lines

/// Accumulator form of splitting on newlines; the text after the last
/// newline is a line too.
pub open spec fn lines_fold(s: Seq<char>, i: int, acc: Seq<Seq<char>>, cur: Seq<char>) -> Seq<
    Seq<char>,
>
    decreases s.len() - i,
{
    if i < 0 || i >= s.len() {
        acc.push(cur)
    } else if s[i] == '\n' {
        lines_fold(s, i + 1, acc.push(cur), seq![])
    } else {
        lines_fold(s, i + 1, acc, cur.push(s[i]))
    }
}

/// The lines of a text, split on `\n`.
pub open spec fn lines_of(s: Seq<char>) -> Seq<Seq<char>> {
    lines_fold(s, 0, seq![], seq![])
}

/// Splits a text into its lines.
pub fn split_lines(cs: &Vec<char>) -> (r: Vec<Vec<char>>)
    ensures
        r.deep_view() == lines_of(cs@),
{
    let mut acc: Vec<Vec<char>> = Vec::new();
    let mut cur: Vec<char> = Vec::new();
    let mut i: usize = 0;
    assert(acc.deep_view() =~~= Seq::<Seq<char>>::empty());
    while i < cs.len()
        invariant
            i <= cs@.len(),
            lines_of(cs@) == lines_fold(cs@, i as int, acc.deep_view(), cur@),
        decreases cs@.len() - i,
    {
        let ghost prev = acc.deep_view();
        let ghost curv = cur@;
        if cs[i] == '\n' {
            acc.push(cur);
            assert(acc.deep_view() =~~= prev.push(curv));
            cur = Vec::new();
        } else {
            cur.push(cs[i]);
        }
        i = i + 1;
    }
    let ghost prev = acc.deep_view();
    let ghost curv = cur@;
    acc.push(cur);
    assert(acc.deep_view() =~~= prev.push(curv));
    acc
}

/// A line holding at most whitespace.
pub open spec fn is_blank(line: Seq<char>) -> bool {
    forall|k: int| 0 <= k < line.len() ==> ws_char(#[trigger] line[k])
}

/// Runtime test for [`is_blank`].
pub fn blank_line(line: &Vec<char>) -> (r: bool)
    ensures
        r == is_blank(line@),
{
    let mut k: usize = 0;
    while k < line.len()
        invariant
            k <= line@.len(),
            forall|j: int| 0 <= j < k ==> ws_char(#[trigger] line@[j]),
        decreases line@.len() - k,
    {
        if !is_ws_char(line[k]) {
            return false;
        }
        k = k + 1;
    }
    true
}

/// Accumulator form of dropping the blank lines.
pub open spec fn nonblank_fold(ls: Seq<Seq<char>>, i: int, acc: Seq<Seq<char>>) -> Seq<Seq<char>>
    decreases ls.len() - i,
{
    if i < 0 || i >= ls.len() {
        acc
    } else if is_blank(ls[i]) {
        nonblank_fold(ls, i + 1, acc)
    } else {
        nonblank_fold(ls, i + 1, acc.push(ls[i]))
    }
}

/// The non-blank lines of a text, in order.
pub open spec fn nonblank_lines(s: Seq<char>) -> Seq<Seq<char>> {
    nonblank_fold(lines_of(s), 0, seq![])
}

// ---------------------------------------------------------------------------
// positions, keywords, and the instance-name scheme

/// The first position at or after `i` holding a non-whitespace character.
pub open spec fn skip_ws(s: Seq<char>, i: int) -> int
    decreases s.len() - i,
{
    if i < 0 || i >= s.len() {
        s.len() as int
    } else if ws_char(s[i]) {
        skip_ws(s, i + 1)
    } else {
        i
    }
}

/// Advances over the exact characters of `kw` at `i`, if they are there.
pub open spec fn match_lit(s: Seq<char>, i: int, kw: Seq<char>) -> Option<int>
    decreases kw.len(),
{
    if kw.len() == 0 {
        Some(i)
    } else if 0 <= i < s.len() && s[i] == kw[0] {
        match_lit(s, i + 1, kw.drop_first())
    } else {
        None
    }
}

/// A successful literal match ends exactly behind the literal.
proof fn lemma_match_lit_len(s: Seq<char>, i: int, kw: Seq<char>)
    requires
        match_lit(s, i, kw) is Some,
    ensures
        match_lit(s, i, kw)->Some_0 == i + kw.len(),
    decreases kw.len(),
{
    if kw.len() > 0 {
        lemma_match_lit_len(s, i + 1, kw.drop_first());
    }
}

/// Advances over one letter of the name scheme, in either case.
pub open spec fn match_letter(s: Seq<char>, i: int, lo: char, up: char) -> Option<int> {
    if 0 <= i < s.len() && (s[i] == lo || s[i] == up) {
        Some(i + 1)
    } else {
        None
    }
}

/// Advances over a benchmark instance name — an optional `l`, a family
/// (`rc`, `r` or `c`), a type digit `1` or `2`, then `_`, an even size up to
/// `10`, `_`, and an index `1` to `10` — letters in either case and
/// whitespace tolerated between the pieces. Yields the position behind the
/// name, committing to the longest alternative first, as the format's
/// grammar does.
pub open spec fn name_after(s: Seq<char>) -> Option<int> {
    let i0 = skip_ws(s, 0);
    let i1 = match match_letter(s, i0, 'l', 'L') {
        Some(j) => skip_ws(s, j),
        None => i0,
    };
    let fam = match match_letter(s, i1, 'r', 'R') {
        Some(j) => match match_letter(s, j, 'c', 'C') {
            Some(k) => Some(k),
            None => Some(j),
        },
        None => match_letter(s, i1, 'c', 'C'),
    };
    match fam {
        None => None,
        Some(j2) => {
            let i2 = skip_ws(s, j2);
            if !(0 <= i2 < s.len() && (s[i2] == '1' || s[i2] == '2')) {
                None
            } else {
                let i3 = skip_ws(s, i2 + 1);
                match match_lit(s, i3, "_"@) {
                    None => None,
                    Some(j3) => {
                        let i4 = skip_ws(s, j3);
                        let size = if match_lit(s, i4, "10"@) is Some {
                            Some(i4 + 2)
                        } else if 0 <= i4 < s.len() && (s[i4] == '2' || s[i4] == '4' || s[i4]
                            == '6' || s[i4] == '8') {
                            Some(i4 + 1)
                        } else {
                            None
                        };
                        match size {
                            None => None,
                            Some(j4) => {
                                let i5 = skip_ws(s, j4);
                                match match_lit(s, i5, "_"@) {
                                    None => None,
                                    Some(j5) => {
                                        let i6 = skip_ws(s, j5);
                                        if match_lit(s, i6, "10"@) is Some {
                                            Some(i6 + 2)
                                        } else if 0 <= i6 < s.len() && digit(s[i6]) && s[i6]
                                            != '0' {
                                            Some(i6 + 1)
                                        } else {
                                            None
                                        }
                                    },
                                }
                            },
                        }
                    },
                }
            }
        },
    }
}

/// The name scheme, matched against a whole piece of text: nothing but
/// whitespace may follow the name.
pub open spec fn is_full_name(s: Seq<char>) -> bool {
    match name_after(s) {
        Some(j) => skip_ws(s, j) == s.len(),
        None => false,
    }
}

/// The lower-case form of the letters the name scheme admits.
pub open spec fn lower_char(c: char) -> char {
    if c == 'C' {
        'c'
    } else if c == 'L' {
        'l'
    } else if c == 'R' {
        'r'
    } else {
        c
    }
}

/// Accumulator form of the name normalization: whitespace dropped, letters
/// lowered.
pub open spec fn norm_fold(s: Seq<char>, i: int, acc: Seq<char>) -> Seq<char>
    decreases s.len() - i,
{
    if i < 0 || i >= s.len() {
        acc
    } else if ws_char(s[i]) {
        norm_fold(s, i + 1, acc)
    } else {
        norm_fold(s, i + 1, acc.push(lower_char(s[i])))
    }
}

/// A matched instance name, normalized: internal whitespace removed and
/// letters case-folded.
pub open spec fn normalize_name(s: Seq<char>) -> Seq<char> {
    norm_fold(s, 0, seq![])
}

// runtime twins of the matchers

pub(crate) fn skip_ws_exec(s: &Vec<char>, i: usize) -> (r: usize)
    requires
        i <= s@.len(),
    ensures
        r == skip_ws(s@, i as int),
        i <= r <= s@.len(),
{
    let mut j = i;
    while j < s.len()
        invariant
            i <= j <= s@.len(),
            skip_ws(s@, i as int) == skip_ws(s@, j as int),
        decreases s@.len() - j,
    {
        if !is_ws_char(s[j]) {
            return j;
        }
        j = j + 1;
    }
    j
}

fn match_lit_exec(s: &Vec<char>, i: usize, kw: &Vec<char>) -> (r: Option<usize>)
    requires
        i <= s@.len(),
    ensures
        match r {
            Some(j) => match_lit(s@, i as int, kw@) == Some(j as int) && i <= j <= s@.len(),
            None => match_lit(s@, i as int, kw@) is None,
        },
{
    let mut j = i;
    let mut k: usize = 0;
    assert(kw@.skip(0) =~= kw@);
    while k < kw.len()
        invariant
            i <= j <= s@.len(),
            k <= kw@.len(),
            j - i == k,
            match_lit(s@, i as int, kw@) == match_lit(s@, j as int, kw@.skip(k as int)),
        decreases kw@.len() - k,
    {
        assert(kw@.skip(k as int)[0] == kw@[k as int]);
        if j >= s.len() {
            return None;
        }
        if s[j] != kw[k] {
            return None;
        }
        assert(kw@.skip(k as int).drop_first() =~= kw@.skip(k as int + 1));
        j = j + 1;
        k = k + 1;
    }
    assert(kw@.skip(kw@.len() as int) =~= Seq::<char>::empty());
    Some(j)
}

fn match_letter_exec(s: &Vec<char>, i: usize, lo: char, up: char) -> (r: Option<usize>)
    requires
        i <= s@.len(),
    ensures
        match r {
            Some(j) => match_letter(s@, i as int, lo, up) == Some(j as int) && i < j <= s@.len(),
            None => match_letter(s@, i as int, lo, up) is None,
        },
{
    if i < s.len() && (s[i] == lo || s[i] == up) {
        Some(i + 1)
    } else {
        None
    }
}

/// Advances over an instance name, as [`name_after`] states.
pub(crate) fn name_after_exec(s: &Vec<char>) -> (r: Option<usize>)
    ensures
        match r {
            Some(j) => name_after(s@) == Some(j as int) && j <= s@.len() && skip_ws(s@, 0)
                <= j as int,
            None => name_after(s@) is None,
        },
{
    let lit_u = str_chars("_");
    let lit_ten = str_chars("10");
    let i0 = skip_ws_exec(s, 0);
    let i1 = match match_letter_exec(s, i0, 'l', 'L') {
        Some(j) => skip_ws_exec(s, j),
        None => i0,
    };
    let fam = match match_letter_exec(s, i1, 'r', 'R') {
        Some(j) => match match_letter_exec(s, j, 'c', 'C') {
            Some(k) => Some(k),
            None => Some(j),
        },
        None => match_letter_exec(s, i1, 'c', 'C'),
    };
    let j2 = match fam {
        None => {
            return None;
        },
        Some(j2) => j2,
    };
    let i2 = skip_ws_exec(s, j2);
    if !(i2 < s.len() && (s[i2] == '1' || s[i2] == '2')) {
        return None;
    }
    let i3 = skip_ws_exec(s, i2 + 1);
    let j3 = match match_lit_exec(s, i3, &lit_u) {
        None => {
            return None;
        },
        Some(j3) => j3,
    };
    let i4 = skip_ws_exec(s, j3);
    let j4 = match match_lit_exec(s, i4, &lit_ten) {
        Some(j) => {
            proof {
                lemma_match_lit_len(s@, i4 as int, "10"@);
                reveal_strlit("10");
            }
            j
        },
        None => if i4 < s.len() && (s[i4] == '2' || s[i4] == '4' || s[i4] == '6' || s[i4]
            == '8') {
            i4 + 1
        } else {
            return None;
        },
    };
    let i5 = skip_ws_exec(s, j4);
    let j5 = match match_lit_exec(s, i5, &lit_u) {
        None => {
            return None;
        },
        Some(j5) => j5,
    };
    let i6 = skip_ws_exec(s, j5);
    match match_lit_exec(s, i6, &lit_ten) {
        Some(j) => {
            proof {
                lemma_match_lit_len(s@, i6 as int, "10"@);
                reveal_strlit("10");
            }
            Some(j)
        },
        None => if i6 < s.len() && is_digit_char(s[i6]) && s[i6] != '0' {
            Some(i6 + 1)
        } else {
            None
        },
    }
}

/// Normalizes a matched name into a fresh string.
fn normalize_name_exec(s: &Vec<char>) -> (r: String)
    ensures
        r@ == normalize_name(s@),
{
    let mut out = String::new();
    let mut i: usize = 0;
    while i < s.len()
        invariant
            i <= s@.len(),
            normalize_name(s@) == norm_fold(s@, i as int, out@),
        decreases s@.len() - i,
    {
        let c = s[i];
        if !is_ws_char(c) {
            let lc: char = if c == 'C' {
                'c'
            } else if c == 'L' {
                'l'
            } else if c == 'R' {
                'r'
            } else {
                c
            };
            assert(lc == lower_char(s@[i as int]));
            let ghost prev = out@;
            push_char(&mut out, lc);
            assert(out@ =~= prev.push(lower_char(s@[i as int])));
        }
        i = i + 1;
    }
    out
}

/// The entry points of the solution grammar, for checking pieces of text
/// against its rules.
pub struct SolutionParser;

impl SolutionParser {
    /// Does the text begin with a well-formed benchmark instance name?
    pub fn matches_instance_name(s: &str) -> (r: bool)
        ensures
            r == (name_after(s@) is Some),
    {
        let cs = str_chars(s);
        name_after_exec(&cs).is_some()
    }

    /// Is the text one well-formed `Instance name:` line, with a matching
    /// name or none at all?
    pub fn matches_instance_line(s: &str) -> (r: bool)
        ensures
            r == spec_instance_line_ok(s@),
    {
        let cs = str_chars(s);
        let kw1 = str_chars("Instance");
        let kw2 = str_chars("name");
        let colon = str_chars(":");
        let i0 = skip_ws_exec(&cs, 0);
        let j1 = match match_lit_exec(&cs, i0, &kw1) {
            None => {
                return false;
            },
            Some(j) => j,
        };
        let i1 = skip_ws_exec(&cs, j1);
        let j2 = match match_lit_exec(&cs, i1, &kw2) {
            None => {
                return false;
            },
            Some(j) => j,
        };
        let i2 = skip_ws_exec(&cs, j2);
        let j3 = match match_lit_exec(&cs, i2, &colon) {
            None => {
                return false;
            },
            Some(j) => j,
        };
        let rest = tail_chars(&cs, j3);
        let e = skip_ws_exec(&rest, 0);
        if e == rest.len() {
            return true;
        }
        match name_after_exec(&rest) {
            Some(j) => skip_ws_exec(&rest, j) == rest.len(),
            None => false,
        }
    }
}

// ---------------------------------------------------------------------------
// the solution file

pub open spec fn msg_solution_missing() -> Seq<char> {
    "can't parse solution: incomplete header"@
}

pub open spec fn msg_solution_line(line: Seq<char>) -> Seq<char> {
    "can't parse solution: unexpected line `"@ + line + "'"@
}

/// The text behind a `<kw1> <kw2> :` header, if the line has that shape.
pub open spec fn header_rest2(line: Seq<char>, kw1: Seq<char>, kw2: Seq<char>) -> Option<
    Seq<char>,
> {
    let i0 = skip_ws(line, 0);
    match match_lit(line, i0, kw1) {
        None => None,
        Some(j1) => {
            let i1 = skip_ws(line, j1);
            match match_lit(line, i1, kw2) {
                None => None,
                Some(j2) => {
                    let i2 = skip_ws(line, j2);
                    match match_lit(line, i2, ":"@) {
                        None => None,
                        Some(j3) => Some(line.skip(j3)),
                    }
                },
            }
        },
    }
}

/// The text behind a `<kw> :` header, if the line has that shape.
pub open spec fn header_rest1(line: Seq<char>, kw: Seq<char>) -> Option<Seq<char>> {
    let i0 = skip_ws(line, 0);
    match match_lit(line, i0, kw) {
        None => None,
        Some(j1) => {
            let i1 = skip_ws(line, j1);
            match match_lit(line, i1, ":"@) {
                None => None,
                Some(j2) => Some(line.skip(j2)),
            }
        },
    }
}

/// A line holding the bare keyword `Solution`.
pub open spec fn solution_line_ok(line: Seq<char>) -> bool {
    let i0 = skip_ws(line, 0);
    match match_lit(line, i0, "Solution"@) {
        None => false,
        Some(j) => skip_ws(line, j) == line.len(),
    }
}

/// The instance name carried by a name line: the normalized name where the
/// field matches the scheme in full, the empty name where the field is
/// empty, nothing where the line is malformed.
pub open spec fn spec_name_of_line(line: Seq<char>) -> Option<Seq<char>> {
    match header_rest2(line, "Instance"@, "name"@) {
        None => None,
        Some(rest) => if skip_ws(rest, 0) == rest.len() {
            Some(seq![])
        } else if is_full_name(rest) {
            Some(normalize_name(rest))
        } else {
            Some(seq![])
        },
    }
}

/// Whether a text is one well-formed name line.
pub open spec fn spec_instance_line_ok(s: Seq<char>) -> bool {
    match header_rest2(s, "Instance"@, "name"@) {
        None => false,
        Some(rest) => skip_ws(rest, 0) == rest.len() || is_full_name(rest),
    }
}

/// The ids of a route line: the text behind `Route <label> :`, split into
/// words, each read as an id and defaulting to `0` where it is not one.
pub open spec fn spec_route_ids(line: Seq<char>) -> Option<Seq<usize>> {
    let i0 = skip_ws(line, 0);
    match match_lit(line, i0, "Route"@) {
        None => None,
        Some(j1) => {
            let i1 = skip_ws(line, j1);
            let i2 = skip_digits(line, i1);
            let i3 = skip_ws(line, i2);
            match match_lit(line, i3, ":"@) {
                None => None,
                Some(j2) => Some(ids_of(tokens_of(line.skip(j2)))),
            }
        },
    }
}

/// The first position at or after `i` holding a non-digit.
pub open spec fn skip_digits(s: Seq<char>, i: int) -> int
    decreases s.len() - i,
{
    if i < 0 || i >= s.len() {
        s.len() as int
    } else if digit(s[i]) {
        skip_digits(s, i + 1)
    } else {
        i
    }
}

/// Each token as an id, unparsable ones as `0`.
pub open spec fn ids_of(ts: Seq<Seq<char>>) -> Seq<usize> {
    ts.map_values(
        |t: Seq<char>|
            match usize_token(t) {
                Some(v) => v as usize,
                None => 0usize,
            },
    )
}

/// Route lines from `i` on, each contributing its ids in file order.
pub open spec fn routes_fold(nb: Seq<Seq<char>>, i: int, acc: Seq<Seq<usize>>) -> Result<
    Seq<Seq<usize>>,
    Seq<char>,
>
    decreases nb.len() - i,
{
    if i < 0 || i >= nb.len() {
        Ok(acc)
    } else {
        match spec_route_ids(nb[i]) {
            None => Err(msg_solution_line(nb[i])),
            Some(ids) => routes_fold(nb, i + 1, acc.push(ids)),
        }
    }
}

/// What parsing a solution text yields: the normalized name and the routes,
/// or the first diagnostic.
pub open spec fn spec_parse_solution(s: Seq<char>) -> Result<(Seq<char>, Seq<Seq<usize>>), Seq<
    char,
>> {
    let nb = nonblank_lines(s);
    if nb.len() < 5 {
        Err(msg_solution_missing())
    } else {
        match spec_name_of_line(nb[0]) {
            None => Err(msg_solution_line(nb[0])),
            Some(name) => {
                if header_rest1(nb[1], "Authors"@) is None {
                    Err(msg_solution_line(nb[1]))
                } else if header_rest1(nb[2], "Date"@) is None {
                    Err(msg_solution_line(nb[2]))
                } else if header_rest1(nb[3], "Reference"@) is None {
                    Err(msg_solution_line(nb[3]))
                } else if !solution_line_ok(nb[4]) {
                    Err(msg_solution_line(nb[4]))
                } else {
                    match routes_fold(nb, 5, seq![]) {
                        Err(m) => Err(m),
                        Ok(routes) => Ok((name, routes)),
                    }
                }
            },
        }
    }
}

// runtime side

fn skip_digits_exec(s: &Vec<char>, i: usize) -> (r: usize)
    requires
        i <= s@.len(),
    ensures
        r == skip_digits(s@, i as int),
        i <= r <= s@.len(),
{
    let mut j = i;
    while j < s.len()
        invariant
            i <= j <= s@.len(),
            skip_digits(s@, i as int) == skip_digits(s@, j as int),
        decreases s@.len() - j,
    {
        if !is_digit_char(s[j]) {
            return j;
        }
        j = j + 1;
    }
    j
}

/// Copies the tail of a line from position `from` on.
fn tail_chars(line: &Vec<char>, from: usize) -> (r: Vec<char>)
    requires
        from <= line@.len(),
    ensures
        r@ == line@.skip(from as int),
{
    let mut out: Vec<char> = Vec::new();
    let mut i = from;
    while i < line.len()
        invariant
            from <= i <= line@.len(),
            out@ =~= line@.subrange(from as int, i as int),
        decreases line@.len() - i,
    {
        out.push(line[i]);
        i = i + 1;
    }
    assert(out@ =~= line@.skip(from as int));
    out
}

/// The name carried by a well-formed `Instance name:` line.
fn instance_name_line(line: &Vec<char>) -> (r: Option<String>)
    ensures
        match r {
            Some(name) => spec_name_of_line(line@) == Some(name@),
            None => spec_name_of_line(line@) is None,
        },
{
    let kw1 = str_chars("Instance");
    let kw2 = str_chars("name");
    let colon = str_chars(":");
    let i0 = skip_ws_exec(line, 0);
    let j1 = match match_lit_exec(line, i0, &kw1) {
        None => {
            return None;
        },
        Some(j) => j,
    };
    let i1 = skip_ws_exec(line, j1);
    let j2 = match match_lit_exec(line, i1, &kw2) {
        None => {
            return None;
        },
        Some(j) => j,
    };
    let i2 = skip_ws_exec(line, j2);
    let j3 = match match_lit_exec(line, i2, &colon) {
        None => {
            return None;
        },
        Some(j) => j,
    };
    let rest = tail_chars(line, j3);
    let e = skip_ws_exec(&rest, 0);
    if e == rest.len() {
        return Some(String::new());
    }
    match name_after_exec(&rest) {
        Some(j) => {
            let after = skip_ws_exec(&rest, j);
            if after == rest.len() {
                Some(normalize_name_exec(&rest))
            } else {
                Some(String::new())
            }
        },
        None => Some(String::new()),
    }
}

/// Whether a line is a `<kw> :` header.
fn header_line(line: &Vec<char>, kw: &Vec<char>) -> (r: bool)
    ensures
        r == (header_rest1(line@, kw@) is Some),
{
    let colon = str_chars(":");
    let i0 = skip_ws_exec(line, 0);
    let j1 = match match_lit_exec(line, i0, kw) {
        None => {
            return false;
        },
        Some(j) => j,
    };
    let i1 = skip_ws_exec(line, j1);
    match match_lit_exec(line, i1, &colon) {
        None => false,
        Some(_) => true,
    }
}

/// Whether a line is the bare `Solution` keyword.
fn solution_line(line: &Vec<char>) -> (r: bool)
    ensures
        r == solution_line_ok(line@),
{
    let kw = str_chars("Solution");
    let i0 = skip_ws_exec(line, 0);
    match match_lit_exec(line, i0, &kw) {
        None => false,
        Some(j) => skip_ws_exec(line, j) == line.len(),
    }
}

/// The ids of a route line, if it is one.
fn route_ids(line: &Vec<char>) -> (r: Option<Vec<usize>>)
    ensures
        match r {
            Some(ids) => spec_route_ids(line@) == Some(ids@),
            None => spec_route_ids(line@) is None,
        },
{
    let kw = str_chars("Route");
    let colon = str_chars(":");
    let i0 = skip_ws_exec(line, 0);
    let j1 = match match_lit_exec(line, i0, &kw) {
        None => {
            return None;
        },
        Some(j) => j,
    };
    let i1 = skip_ws_exec(line, j1);
    let i2 = skip_digits_exec(line, i1);
    let i3 = skip_ws_exec(line, i2);
    let j2 = match match_lit_exec(line, i3, &colon) {
        None => {
            return None;
        },
        Some(j) => j,
    };
    let rest = tail_chars(line, j2);
    let ts = crate::text::tokenize(&rest);
    let ghost tsd = ts.deep_view();
    let mut ids: Vec<usize> = Vec::new();
    let mut k: usize = 0;
    while k < ts.len()
        invariant
            k <= ts@.len(),
            ids@.len() == k,
            tsd == ts.deep_view(),
            tsd.len() == ts@.len(),
            tsd == tokens_of(line@.skip(j2 as int)),
            forall|q: int| 0 <= q < k ==> #[trigger] ids@[q] == ids_of(tsd)[q],
        decreases ts@.len() - k,
    {
        assert(tsd[k as int] == ts@[k as int].deep_view());
        assert(ts@[k as int].deep_view() =~= ts@[k as int]@);
        let v = match crate::text::parse_usize_token(&ts[k]) {
            Some(v) => v,
            None => 0,
        };
        ids.push(v);
        k = k + 1;
    }
    assert(ids@ =~= ids_of(tsd));
    Some(ids)
}

/// Parses a solution text, as [`spec_parse_solution`] states.
pub fn parse_solution(s: &str) -> (r: Result<Solution, String>)
    ensures
        match r {
            Ok(sol) => spec_parse_solution(s@) == Ok::<_, Seq<char>>(
                (sol.instance_name@, sol.routes.deep_view()),
            ),
            Err(m) => spec_parse_solution(s@) is Err && m@ == spec_parse_solution(s@)->Err_0,
        },
{
    let cs = str_chars(s);
    let lines = split_lines(&cs);
    let ghost linesd = lines.deep_view();
    let mut nb: Vec<Vec<char>> = Vec::new();
    let mut i: usize = 0;
    assert(nb.deep_view() =~~= Seq::<Seq<char>>::empty());
    while i < lines.len()
        invariant
            i <= lines@.len(),
            linesd == lines.deep_view(),
            linesd.len() == lines@.len(),
            linesd == lines_of(s@),
            nonblank_fold(linesd, 0, seq![]) == nonblank_fold(linesd, i as int, nb.deep_view()),
        decreases lines@.len() - i,
    {
        assert(linesd[i as int] == lines@[i as int].deep_view());
        assert(lines@[i as int].deep_view() =~= lines@[i as int]@);
        let ghost prev = nb.deep_view();
        if !blank_line(&lines[i]) {
            let line = lines[i].clone();
            assert(line@ == lines@[i as int]@);
            nb.push(line);
            assert(nb.deep_view() =~~= prev.push(linesd[i as int]));
        }
        i = i + 1;
    }
    let ghost nbd = nb.deep_view();
    assert(nbd == nonblank_lines(s@));
    if nb.len() < 5 {
        let mut m = String::new();
        m.append("can't parse solution: incomplete header");
        assert(m@ =~= msg_solution_missing());
        return Err(m);
    }
    assert(nbd[0] =~= nb@[0]@);
    assert(nbd[1] =~= nb@[1]@);
    assert(nbd[2] =~= nb@[2]@);
    assert(nbd[3] =~= nb@[3]@);
    assert(nbd[4] =~= nb@[4]@);
    let name = match instance_name_line(&nb[0]) {
        None => {
            return Err(build_line_err(&nb[0]));
        },
        Some(name) => name,
    };
    let authors = str_chars("Authors");
    if !header_line(&nb[1], &authors) {
        return Err(build_line_err(&nb[1]));
    }
    let date = str_chars("Date");
    if !header_line(&nb[2], &date) {
        return Err(build_line_err(&nb[2]));
    }
    let reference = str_chars("Reference");
    if !header_line(&nb[3], &reference) {
        return Err(build_line_err(&nb[3]));
    }
    if !solution_line(&nb[4]) {
        return Err(build_line_err(&nb[4]));
    }
    let mut routes: Vec<Vec<usize>> = Vec::new();
    let mut k: usize = 5;
    assert(routes.deep_view() =~~= Seq::<Seq<usize>>::empty());
    while k < nb.len()
        invariant
            5 <= k <= nb@.len(),
            nbd == nb.deep_view(),
            nbd.len() == nb@.len(),
            nbd == nonblank_lines(s@),
            spec_name_of_line(nbd[0]) == Some(name@),
            header_rest1(nbd[1], "Authors"@) is Some,
            header_rest1(nbd[2], "Date"@) is Some,
            header_rest1(nbd[3], "Reference"@) is Some,
            solution_line_ok(nbd[4]),
            routes_fold(nbd, 5, seq![]) == routes_fold(nbd, k as int, routes.deep_view()),
        decreases nb@.len() - k,
    {
        assert(nbd[k as int] == nb@[k as int].deep_view());
        assert(nb@[k as int].deep_view() =~= nb@[k as int]@);
        let ghost prev = routes.deep_view();
        match route_ids(&nb[k]) {
            None => {
                return Err(build_line_err(&nb[k]));
            },
            Some(ids) => {
                let ghost idsv = ids@;
                routes.push(ids);
                assert(routes.deep_view() =~~= prev.push(idsv));
            },
        }
        k = k + 1;
    }
    Ok(Solution { instance_name: name, routes })
}

/// Builds the diagnostic for a line the grammar does not recognize.
fn build_line_err(line: &Vec<char>) -> (m: String)
    ensures
        m@ == msg_solution_line(line@),
{
    let mut m = String::new();
    m.append("can't parse solution: unexpected line `");
    crate::text::push_chars(&mut m, line, 0, line.len());
    m.append("'");
    proof {
        assert(line@.subrange(0, line@.len() as int) =~= line@);
        assert(m@ =~= msg_solution_line(line@));
    }
    m
}

impl core::str::FromStr for Solution {
    type Err = String;

    fn from_str(s: &str) -> Result<Solution, String> {
        parse_solution(s)
    }
}


// ---------------------------------------------------------------------------
// rendering

/// Accumulator form of a route's ids, separated by single spaces.
pub open spec fn ids_join_fold(route: Seq<usize>, k: int, acc: Seq<char>) -> Seq<char>
    decreases route.len() - k,
{
    if k < 0 || k >= route.len() {
        acc
    } else {
        ids_join_fold(route, k + 1, acc + " "@ + dec_int(route[k] as int))
    }
}

/// A route's ids, separated by single spaces.
pub open spec fn ids_text(route: Seq<usize>) -> Seq<char> {
    if route.len() == 0 {
        seq![]
    } else {
        ids_join_fold(route, 1, dec_int(route[0] as int))
    }
}

/// One rendered route line.
pub open spec fn route_line_text(route: Seq<usize>, rid1: int) -> Seq<char> {
    "Route "@ + dec_int(rid1) + ": "@ + ids_text(route) + "\n"@
}

/// Accumulator form of the rendered route lines.
pub open spec fn routes_text_fold(routes: Seq<Seq<usize>>, r: int, acc: Seq<char>) -> Seq<char>
    decreases routes.len() - r,
{
    if r < 0 || r >= routes.len() {
        acc
    } else {
        routes_text_fold(routes, r + 1, acc + route_line_text(routes[r], r + 1))
    }
}

/// The rendered form of a solution, with the name upper-cased and the given
/// date stamped in.
pub open spec fn solution_text(sol: Solution, date: Seq<char>) -> Seq<char> {
    "Instance name: "@ + crate::text::upper_of(sol.instance_name@) + "\n"@ + "Authors: \n"@
        + "Date: "@ + date + "\n"@ + "Reference: \n"@ + "Solution\n"@ + routes_text_fold(
        sol.routes.deep_view(),
        0,
        seq![],
    )
}

impl Solution {
    /// Renders the solution in its textual format, stamping in the given
    /// date line, as [`solution_text`] states.
    pub fn to_text(&self, date: &str) -> (r: String)
        ensures
            r@ == solution_text(*self, date@),
    {
        let ghost routesd = self.routes.deep_view();
        let mut m = String::new();
        m.append("Instance name: ");
        let up = crate::text::to_upper(self.instance_name.as_str());
        m.append(up.as_str());
        m.append("\n");
        m.append("Authors: \n");
        m.append("Date: ");
        m.append(date);
        m.append("\n");
        m.append("Reference: \n");
        m.append("Solution\n");
        let ghost head = m@;
        let mut r: usize = 0;
        let ghost empty_tail = Seq::<char>::empty();
        assert(m@ =~= head + empty_tail);
        while r < self.routes.len()
            invariant
                r <= self.routes@.len(),
                routesd == self.routes.deep_view(),
                routesd.len() == self.routes@.len(),
                m@.len() >= head.len(),
                m@.take(head.len() as int) == head,
                routes_text_fold(routesd, 0, seq![]) == routes_text_fold(
                    routesd,
                    r as int,
                    m@.skip(head.len() as int),
                ),
            decreases self.routes@.len() - r,
        {
            let route = &self.routes[r];
            let ghost routed = routesd[r as int];
            assert(routed =~= self.routes@[r as int]@);
            let ghost before = m@;
            m.append("Route ");
            push_u64(&mut m, (r + 1) as u64);
            assert(dec_digits((r + 1) as u64 as nat) == dec_int(r as int + 1));
            m.append(": ");
            if route.len() > 0 {
                push_u64(&mut m, route[0] as u64);
                assert(dec_digits(route@[0] as u64 as nat) == dec_int(routed[0] as int));
                let ghost first_done = m@;
                let mut k: usize = 1;
                assert(m@ =~= first_done);
                while k < route.len()
                    invariant
                        1 <= k <= route@.len(),
                        route@ == routed,
                        m@.len() >= first_done.len(),
                        m@.take(first_done.len() as int) == first_done,
                        ids_join_fold(routed, 1, dec_int(routed[0] as int)) == ids_join_fold(
                            routed,
                            k as int,
                            dec_int(routed[0] as int) + m@.skip(first_done.len() as int),
                        ),
                    decreases route@.len() - k,
                {
                    let ghost seg = m@.skip(first_done.len() as int);
                    m.append(" ");
                    push_u64(&mut m, route[k] as u64);
                    assert(dec_digits(route@[k as int] as u64 as nat) == dec_int(
                        routed[k as int] as int,
                    ));
                    assert(m@.skip(first_done.len() as int) =~= seg + " "@ + dec_int(
                        routed[k as int] as int,
                    ));
                    assert(m@.take(first_done.len() as int) =~= first_done);
                    assert(dec_int(routed[0] as int) + (seg + " "@ + dec_int(
                        routed[k as int] as int,
                    )) =~= (dec_int(routed[0] as int) + seg) + " "@ + dec_int(
                        routed[k as int] as int,
                    ));
                    k = k + 1;
                }
                assert(m@ =~= first_done + m@.skip(first_done.len() as int));
                assert(ids_text(routed) == dec_int(routed[0] as int) + m@.skip(
                    first_done.len() as int,
                ));
            } else {
                assert(ids_text(routed) =~= Seq::<char>::empty());
            }
            m.append("\n");
            assert(m@ =~= before + route_line_text(routed, r as int + 1));
            assert(m@.take(head.len() as int) =~= head);
            assert(m@.skip(head.len() as int) =~= before.skip(head.len() as int)
                + route_line_text(routed, r as int + 1));
            r = r + 1;
        }
        assert(m@ =~= head + m@.skip(head.len() as int));
        assert(m@ =~= solution_text(*self, date@));
        m
    }
}

} // verus!
