use vstd::prelude::*;
use vstd::string::*;

verus! {

// ---------------------------------------------------------------------------
// The text format of a database's file list: one "name id" line per file.
// ---------------------------------------------------------------------------

/// `c` is a Unicode `White_Space` character (what `char::is_whitespace` tests).
pub open spec fn is_ws(c: char) -> bool {
    let u = c as u32;
    ||| 9 <= u <= 13
    ||| u == 32
    ||| u == 0x85
    ||| u == 0xa0
    ||| u == 0x1680
    ||| 0x2000 <= u <= 0x200a
    ||| u == 0x2028
    ||| u == 0x2029
    ||| u == 0x202f
    ||| u == 0x205f
    ||| u == 0x3000
}

/// `s` without its leading white space.
pub open spec fn trim_start(s: Seq<char>) -> Seq<char>
    decreases s.len(),
{
    if s.len() > 0 && is_ws(s[0]) {
        trim_start(s.drop_first())
    } else {
        s
    }
}

/// `s` without its trailing white space.
pub open spec fn trim_end(s: Seq<char>) -> Seq<char>
    decreases s.len(),
{
    if s.len() > 0 && is_ws(s.last()) {
        trim_end(s.drop_last())
    } else {
        s
    }
}

/// `s` without leading and trailing white space (what `str::trim` gives).
pub open spec fn trim(s: Seq<char>) -> Seq<char> {
    trim_end(trim_start(s))
}

/// The pieces of `s` between the '\n' characters (what `str::split("\n")` gives;
/// there is always at least one).
pub open spec fn split_lines(s: Seq<char>) -> Seq<Seq<char>>
    decreases s.len(),
{
    if s.len() == 0 {
        seq![Seq::empty()]
    } else {
        let prev = split_lines(s.drop_last());
        if s.last() == '\n' {
            prev.push(Seq::empty())
        } else {
            prev.update(prev.len() - 1, prev.last().push(s.last()))
        }
    }
}

/// The maximal runs of non-white-space characters of `s`, in order (what
/// `str::split_whitespace` gives).
pub open spec fn words(s: Seq<char>) -> Seq<Seq<char>>
    decreases s.len(),
{
    if s.len() == 0 {
        Seq::empty()
    } else {
        let prev = words(s.drop_last());
        let c = s.last();
        if is_ws(c) {
            prev
        } else if s.len() >= 2 && !is_ws(s[s.len() - 2]) {
            prev.update(prev.len() - 1, prev.last().push(c))
        } else {
            prev.push(seq![c])
        }
    }
}

/// `c` is an ASCII decimal digit.
pub open spec fn is_digit(c: char) -> bool {
    '0' <= c <= '9'
}

/// Every character of `d` is a decimal digit.
pub open spec fn all_digits(d: Seq<char>) -> bool {
    forall|i: int| 0 <= i < d.len() ==> #[trigger] is_digit(d[i])
}

/// `tok` without its leading '+', if it has one.
pub open spec fn id_digits(tok: Seq<char>) -> Seq<char> {
    if tok.len() > 0 && tok[0] == '+' {
        tok.drop_first()
    } else {
        tok
    }
}

/// The number that the decimal digits `d` spell.
pub open spec fn digits_value(d: Seq<char>) -> nat
    decreases d.len(),
{
    if d.len() == 0 {
        0
    } else {
        digits_value(d.drop_last()) * 10 + (d.last() as nat - '0' as nat) as nat
    }
}

/// The `usize` that `tok` spells (what `str::parse::<usize>` accepts): an optional
/// '+', then one or more decimal digits, of a value that fits.
pub open spec fn parse_id(tok: Seq<char>) -> Option<usize> {
    let d = id_digits(tok);
    if d.len() > 0 && all_digits(d) && digits_value(d) <= usize::MAX {
        Some(digits_value(d) as usize)
    } else {
        None
    }
}

/// The (name, id) of one line: exactly two words, the second an id.
pub open spec fn parse_line(line: Seq<char>) -> Option<(Seq<char>, usize)> {
    let w = words(line);
    if w.len() == 2 {
        match parse_id(w[1]) {
            Some(v) => Some((w[0], v)),
            None => None,
        }
    } else {
        None
    }
}

/// The entries of the lines, in order; `None` when a line is not well-formed.
pub open spec fn parse_lines(ls: Seq<Seq<char>>) -> Option<Seq<(Seq<char>, usize)>>
    decreases ls.len(),
{
    if ls.len() == 0 {
        Some(Seq::empty())
    } else {
        match (parse_lines(ls.drop_last()), parse_line(ls.last())) {
            (Some(p), Some(e)) => Some(p.push(e)),
            _ => None,
        }
    }
}

/// The entries that the file list `contents` holds: none for an empty text;
/// otherwise those of the lines of the trimmed text, each of which must be well-formed.
pub open spec fn file_id_entries(contents: Seq<char>) -> Option<Seq<(Seq<char>, usize)>> {
    if contents.len() == 0 {
        Some(Seq::empty())
    } else {
        parse_lines(split_lines(trim(contents)))
    }
}

/// The character of the decimal digit `d`.
pub open spec fn digit_char(d: nat) -> char {
    seq!['0', '1', '2', '3', '4', '5', '6', '7', '8', '9'][d as int]
}

/// The decimal digits of `n`, without leading zeros.
pub open spec fn decimal(n: nat) -> Seq<char>
    decreases n,
{
    if n < 10 {
        seq![digit_char(n)]
    } else {
        decimal(n / 10).push(digit_char(n % 10))
    }
}

/// The line of the file list for one entry: "name id\n".
pub open spec fn entry_line(e: (Seq<char>, usize)) -> Seq<char> {
    e.0 + seq![' '] + decimal(e.1 as nat) + seq!['\n']
}

/// The file list that holds the entries `es`, in order.
pub open spec fn render(es: Seq<(Seq<char>, usize)>) -> Seq<char>
    decreases es.len(),
{
    if es.len() == 0 {
        Seq::empty()
    } else {
        render(es.drop_last()) + entry_line(es.last())
    }
}

/// Whether `c` is white space.
pub fn char_is_ws(c: char) -> (res: bool)
    ensures
        res == is_ws(c),
{
    let u = c as u32;
    (9 <= u && u <= 13) || u == 32 || u == 0x85 || u == 0xa0 || u == 0x1680 || (0x2000 <= u && u
        <= 0x200a) || u == 0x2028 || u == 0x2029 || u == 0x202f || u == 0x205f || u == 0x3000
}

/// The characters of `s`.
fn chars_of(s: &str) -> (res: Vec<char>)
    ensures
        res@ == s@,
{
    let mut v: Vec<char> = Vec::new();
    for c in it: s.chars()
        invariant
            v@.len() == it.index(),
            forall|i: int| 0 <= i < v@.len() ==> v@[i] == it.seq()[i],
    {
        v.push(c);
    }
    proof {
        assert(v@ =~= s@);
    }
    v
}

/// The bounds of `trim(cs)` within `cs`.
fn trim_range(cs: &Vec<char>) -> (res: (usize, usize))
    ensures
        res.0 <= res.1 <= cs@.len(),
        cs@.subrange(res.0 as int, res.1 as int) == trim(cs@),
{
    let n = cs.len();
    let mut a: usize = 0;
    assert(cs@.subrange(0, n as int) =~= cs@);
    while a < n && char_is_ws(cs[a])
        invariant
            a <= n == cs@.len(),
            trim_start(cs@) == trim_start(cs@.subrange(a as int, n as int)),
        decreases n - a,
    {
        assert(cs@.subrange(a as int, n as int).drop_first() =~= cs@.subrange(a + 1, n as int));
        a = a + 1;
    }
    assert(trim_start(cs@) == cs@.subrange(a as int, n as int));
    let mut b: usize = n;
    while b > a && char_is_ws(cs[b - 1])
        invariant
            a <= b <= n == cs@.len(),
            trim_end(cs@.subrange(a as int, n as int)) == trim_end(cs@.subrange(a as int, b as int)),
        decreases b - a,
    {
        assert(cs@.subrange(a as int, b as int).drop_last() =~= cs@.subrange(a as int, b - 1));
        b = b - 1;
    }
    (a, b)
}

/// The bounds, within `cs`, of the pieces of `cs[a..b]` between '\n' characters.
fn line_ranges(cs: &Vec<char>, a: usize, b: usize) -> (res: Vec<(usize, usize)>)
    requires
        a <= b <= cs@.len(),
    ensures
        res@.len() == split_lines(cs@.subrange(a as int, b as int)).len(),
        forall|j: int|
            0 <= j < res@.len() ==> a <= (#[trigger] res@[j]).0 <= res@[j].1 <= b && cs@.subrange(
                res@[j].0 as int,
                res@[j].1 as int,
            ) == split_lines(cs@.subrange(a as int, b as int))[j],
{
    let mut ranges: Vec<(usize, usize)> = Vec::new();
    let mut cur: usize = a;
    let mut i: usize = a;
    while i < b
        invariant
            a <= cur <= i <= b <= cs@.len(),
            ranges@.len() + 1 == split_lines(cs@.subrange(a as int, i as int)).len(),
            forall|j: int|
                0 <= j < ranges@.len() ==> a <= (#[trigger] ranges@[j]).0 <= ranges@[j].1 <= i
                    && cs@.subrange(ranges@[j].0 as int, ranges@[j].1 as int) == split_lines(
                    cs@.subrange(a as int, i as int),
                )[j],
            cs@.subrange(cur as int, i as int) == split_lines(cs@.subrange(a as int, i as int)).last(),
        decreases b - i,
    {
        assert(cs@.subrange(a as int, i + 1).drop_last() =~= cs@.subrange(a as int, i as int));
        if cs[i] == '\n' {
            ranges.push((cur, i));
            cur = i + 1;
        } else {
            assert(cs@.subrange(cur as int, i + 1) =~= cs@.subrange(cur as int, i as int).push(cs@[i as int]));
        }
        i = i + 1;
    }
    ranges.push((cur, b));
    ranges
}

/// The bounds, within `cs`, of the words of `cs[a..b]`.
fn word_ranges(cs: &Vec<char>, a: usize, b: usize) -> (res: Vec<(usize, usize)>)
    requires
        a <= b <= cs@.len(),
    ensures
        res@.len() == words(cs@.subrange(a as int, b as int)).len(),
        forall|j: int|
            0 <= j < res@.len() ==> a <= (#[trigger] res@[j]).0 <= res@[j].1 <= b && cs@.subrange(
                res@[j].0 as int,
                res@[j].1 as int,
            ) == words(cs@.subrange(a as int, b as int))[j],
{
    let mut ranges: Vec<(usize, usize)> = Vec::new();
    let mut in_word = false;
    let mut ws: usize = a;
    let mut i: usize = a;
    while i < b
        invariant
            a <= ws <= i <= b <= cs@.len(),
            in_word ==> {
                &&& ranges@.len() + 1 == words(cs@.subrange(a as int, i as int)).len()
                &&& cs@.subrange(ws as int, i as int) == words(cs@.subrange(a as int, i as int)).last()
                &&& i > a && !is_ws(cs@[i - 1])
            },
            !in_word ==> {
                &&& ranges@.len() == words(cs@.subrange(a as int, i as int)).len()
                &&& (i == a || is_ws(cs@[i - 1]))
            },
            forall|j: int|
                0 <= j < ranges@.len() ==> a <= (#[trigger] ranges@[j]).0 <= ranges@[j].1 <= i
                    && cs@.subrange(ranges@[j].0 as int, ranges@[j].1 as int) == words(
                    cs@.subrange(a as int, i as int),
                )[j],
        decreases b - i,
    {
        let ghost sub = cs@.subrange(a as int, i + 1);
        assert(sub.drop_last() =~= cs@.subrange(a as int, i as int));
        assert(sub.last() == cs@[i as int]);
        let c = cs[i];
        if char_is_ws(c) {
            if in_word {
                ranges.push((ws, i));
                in_word = false;
            }
        } else {
            if in_word {
                assert(sub[sub.len() - 2] == cs@[i - 1]);
                assert(cs@.subrange(ws as int, i + 1) =~= cs@.subrange(ws as int, i as int).push(c));
            } else {
                if i > a {
                    assert(sub[sub.len() - 2] == cs@[i - 1]);
                }
                ws = i;
                in_word = true;
                assert(cs@.subrange(ws as int, i + 1) =~= seq![c]);
            }
        }
        i = i + 1;
    }
    if in_word {
        ranges.push((ws, b));
    }
    ranges
}

proof fn lemma_digits_monotone(s: Seq<char>, k: int)
    requires
        0 <= k <= s.len(),
        forall|i: int| 0 <= i < s.len() ==> #[trigger] is_digit(s[i]),
    ensures
        digits_value(s.subrange(0, k)) <= digits_value(s),
    decreases s.len(),
{
    if k < s.len() {
        let t = s.drop_last();
        assert forall|i: int| 0 <= i < t.len() implies #[trigger] is_digit(t[i]) by {
            assert(is_digit(s[i]));
        }
        lemma_digits_monotone(t, k);
        assert(t.subrange(0, k) =~= s.subrange(0, k));
    } else {
        assert(s.subrange(0, k) =~= s);
    }
}

/// The id that `cs[a..b]` spells (see `parse_id`).
fn parse_digits(cs: &Vec<char>, a: usize, b: usize) -> (res: Option<usize>)
    requires
        a <= b <= cs@.len(),
    ensures
        res == parse_id(cs@.subrange(a as int, b as int)),
{
    let ghost tok = cs@.subrange(a as int, b as int);
    let mut p = a;
    if p < b && cs[p] == '+' {
        p = p + 1;
    }
    let ghost d = cs@.subrange(p as int, b as int);
    assert(d =~= id_digits(tok));
    if p == b {
        return None;
    }
    let mut v: usize = 0;
    let mut i = p;
    while i < b
        invariant
            a <= p <= i <= b <= cs@.len(),
            d == cs@.subrange(p as int, b as int),
            tok == cs@.subrange(a as int, b as int),
            d == id_digits(tok),
            d.len() > 0,
            forall|k: int| p <= k < i ==> #[trigger] is_digit(cs@[k]),
            v == digits_value(cs@.subrange(p as int, i as int)),
        decreases b - i,
    {
        let c = cs[i];
        assert(d[i - p] == c);
        if !('0' <= c && c <= '9') {
            assert(!is_digit(d[i - p]));
            return None;
        }
        let digit = (c as u32 - 48) as usize;
        let ghost pre = cs@.subrange(p as int, i + 1);
        assert(pre.drop_last() =~= cs@.subrange(p as int, i as int));
        assert(digits_value(pre) == v * 10 + digit);
        proof {
            if all_digits(d) {
                lemma_digits_monotone(d, i + 1 - p);
                assert(d.subrange(0, i + 1 - p) =~= pre);
            }
        }
        match v.checked_mul(10) {
            Some(m) => match m.checked_add(digit) {
                Some(n) => {
                    v = n;
                },
                None => {
                    return None;
                },
            },
            None => {
                return None;
            },
        }
        i = i + 1;
    }
    assert(cs@.subrange(p as int, i as int) =~= d);
    assert forall|k: int| 0 <= k < d.len() implies #[trigger] is_digit(d[k]) by {
        assert(d[k] == cs@[p + k]);
    }
    Some(v)
}

/// The entries of `v`, names taken as character sequences.
pub open spec fn entries_view(v: Seq<(String, usize)>) -> Seq<(Seq<char>, usize)> {
    Seq::new(v.len(), |j: int| (v[j].0@, v[j].1))
}

proof fn lemma_parse_lines_prefix(ls: Seq<Seq<char>>, k: int)
    requires
        0 <= k <= ls.len(),
        parse_lines(ls.subrange(0, k)) is None,
    ensures
        parse_lines(ls) is None,
    decreases ls.len(),
{
    if k < ls.len() {
        let t = ls.drop_last();
        assert(t.subrange(0, k) =~= ls.subrange(0, k));
        lemma_parse_lines_prefix(t, k);
    } else {
        assert(ls.subrange(0, k) =~= ls);
    }
}

/// Reads the entries of the file list `contents` (see `file_id_entries`);
/// `None` when it is not well-formed.
pub fn parse_file_ids(contents: &str) -> (res: Option<Vec<(String, usize)>>)
    ensures
        match res {
            Some(v) => file_id_entries(contents@) == Some(entries_view(v@)),
            None => file_id_entries(contents@) is None,
        },
{
    let cs = chars_of(contents);
    if cs.len() == 0 {
        let out: Vec<(String, usize)> = Vec::new();
        assert(entries_view(out@) =~= Seq::<(Seq<char>, usize)>::empty());
        return Some(out);
    }
    let (a, b) = trim_range(&cs);
    let lines = line_ranges(&cs, a, b);
    let ghost ls = split_lines(trim(contents@));
    let mut out: Vec<(String, usize)> = Vec::new();
    let mut j: usize = 0;
    while j < lines.len()
        invariant
            cs@ == contents@,
            cs@.len() > 0,
            a <= b <= cs@.len(),
            cs@.subrange(a as int, b as int) == trim(contents@),
            ls == split_lines(trim(contents@)),
            lines@.len() == ls.len(),
            forall|q: int|
                0 <= q < lines@.len() ==> a <= (#[trigger] lines@[q]).0 <= lines@[q].1 <= b
                    && cs@.subrange(lines@[q].0 as int, lines@[q].1 as int) == ls[q],
            j <= lines@.len(),
            parse_lines(ls.subrange(0, j as int)) == Some(entries_view(out@)),
        decreases lines@.len() - j,
    {
        let (la, lb) = lines[j];
        let ghost line = ls[j as int];
        assert(ls.subrange(0, j + 1).drop_last() =~= ls.subrange(0, j as int));
        assert(ls.subrange(0, j + 1).last() == line);
        let ws = word_ranges(&cs, la, lb);
        if ws.len() != 2 {
            proof {
                lemma_parse_lines_prefix(ls, j + 1);
            }
            return None;
        }
        let (w1a, w1b) = ws[1];
        match parse_digits(&cs, w1a, w1b) {
            None => {
                proof {
                    lemma_parse_lines_prefix(ls, j + 1);
                }
                return None;
            },
            Some(v) => {
                let (w0a, w0b) = ws[0];
                let name = contents.substring_char(w0a, w0b).to_string();
                let ghost pre = out@;
                let ghost entry = (name@, v);
                out.push((name, v));
                proof {
                    assert(entries_view(out@) =~= entries_view(pre).push(entry));
                }
            },
        }
        j = j + 1;
    }
    assert(ls.subrange(0, j as int) =~= ls);
    Some(out)
}

fn digit_str(d: usize) -> (res: &'static str)
    requires
        d < 10,
    ensures
        res@ == seq![digit_char(d as nat)],
{
    if d == 0 {
        proof { reveal_strlit("0"); }
        "0"
    } else if d == 1 {
        proof { reveal_strlit("1"); }
        "1"
    } else if d == 2 {
        proof { reveal_strlit("2"); }
        "2"
    } else if d == 3 {
        proof { reveal_strlit("3"); }
        "3"
    } else if d == 4 {
        proof { reveal_strlit("4"); }
        "4"
    } else if d == 5 {
        proof { reveal_strlit("5"); }
        "5"
    } else if d == 6 {
        proof { reveal_strlit("6"); }
        "6"
    } else if d == 7 {
        proof { reveal_strlit("7"); }
        "7"
    } else if d == 8 {
        proof { reveal_strlit("8"); }
        "8"
    } else {
        proof { reveal_strlit("9"); }
        "9"
    }
}

fn append_decimal(s: &mut String, n: usize)
    ensures
        final(s)@ == old(s)@ + decimal(n as nat),
    decreases n,
{
    if n >= 10 {
        append_decimal(s, n / 10);
    }
    s.append(digit_str(n % 10));
    proof {
        if n >= 10 {
            assert(old(s)@ + decimal(n as nat) =~= old(s)@ + decimal((n / 10) as nat) + seq![
                digit_char((n % 10) as nat),
            ]);
        }
    }
}

/// The file list for `entries`: one "name id\n" line per entry, in order.
pub fn render_file_ids(entries: &Vec<(String, usize)>) -> (res: String)
    ensures
        res@ == render(entries_view(entries@)),
{
    let mut out = String::new();
    let ghost es = entries_view(entries@);
    let mut j: usize = 0;
    while j < entries.len()
        invariant
            es == entries_view(entries@),
            j <= entries@.len(),
            out@ == render(es.subrange(0, j as int)),
        decreases entries@.len() - j,
    {
        assert(es.subrange(0, j + 1).drop_last() =~= es.subrange(0, j as int));
        assert(es.subrange(0, j + 1).last() == (entries@[j as int].0@, entries@[j as int].1));
        let ghost pre = out@;
        out.append(entries[j].0.as_str());
        proof { reveal_strlit(" "); }
        out.append(" ");
        append_decimal(&mut out, entries[j].1);
        proof { reveal_strlit("\n"); }
        out.append("\n");
        proof {
            assert(out@ =~= pre + entry_line(es[j as int]));
        }
        j = j + 1;
    }
    assert(es.subrange(0, j as int) =~= es);
    out
}

// ---------------------------------------------------------------------------
// Reading back a written file list.
// ---------------------------------------------------------------------------

/// A name that the file list can carry: not empty, no white space.
pub open spec fn valid_name(n: Seq<char>) -> bool {
    n.len() > 0 && forall|j: int| 0 <= j < n.len() ==> !is_ws(#[trigger] n[j])
}

/// The lines of the entries, without their '\n'.
pub open spec fn entry_texts(es: Seq<(Seq<char>, usize)>) -> Seq<Seq<char>>
    decreases es.len(),
{
    if es.len() == 0 {
        Seq::empty()
    } else {
        entry_texts(es.drop_last()).push(entry_text(es.last()))
    }
}

/// An entry's line without its '\n': "name id".
pub open spec fn entry_text(e: (Seq<char>, usize)) -> Seq<char> {
    e.0 + seq![' '] + decimal(e.1 as nat)
}

proof fn lemma_split_lines_nonempty(s: Seq<char>)
    ensures
        split_lines(s).len() >= 1,
    decreases s.len(),
{
    if s.len() > 0 {
        lemma_split_lines_nonempty(s.drop_last());
    }
}

proof fn lemma_split_concat(a: Seq<char>, b: Seq<char>)
    ensures
        split_lines(a + seq!['\n'] + b) == split_lines(a) + split_lines(b),
    decreases b.len(),
{
    let s = a + seq!['\n'] + b;
    lemma_split_lines_nonempty(a);
    lemma_split_lines_nonempty(b);
    if b.len() == 0 {
        assert(s.drop_last() =~= a);
        assert(split_lines(a) + split_lines(b) =~= split_lines(a).push(Seq::empty()));
    } else {
        let b2 = b.drop_last();
        lemma_split_concat(a, b2);
        assert(s.drop_last() =~= a + seq!['\n'] + b2);
        lemma_split_lines_nonempty(b2);
        let prev = split_lines(a) + split_lines(b2);
        if b.last() == '\n' {
            assert(split_lines(a) + split_lines(b) =~= prev.push(Seq::empty()));
        } else {
            assert(split_lines(a) + split_lines(b) =~= prev.update(
                prev.len() - 1,
                prev.last().push(b.last()),
            ));
        }
    }
}

proof fn lemma_split_single(p: Seq<char>)
    requires
        forall|j: int| 0 <= j < p.len() ==> #[trigger] p[j] != '\n',
    ensures
        split_lines(p) == seq![p],
    decreases p.len(),
{
    if p.len() > 0 {
        let q = p.drop_last();
        lemma_split_single(q);
        assert(p[p.len() - 1] != '\n');
        assert(q.push(p.last()) =~= p);
        assert(seq![q].update(0, q.push(p.last())) =~= seq![p]);
    } else {
        assert(p =~= Seq::<char>::empty());
    }
}

proof fn lemma_words_nonempty(y: Seq<char>)
    requires
        y.len() > 0,
        !is_ws(y.last()),
    ensures
        words(y).len() >= 1,
    decreases y.len(),
{
    let y2 = y.drop_last();
    if y.len() >= 2 && !is_ws(y[y.len() - 2]) {
        assert(y2.last() == y[y.len() - 2]);
        lemma_words_nonempty(y2);
    }
}

proof fn lemma_words_concat(x: Seq<char>, c: char, y: Seq<char>)
    requires
        is_ws(c),
    ensures
        words(x.push(c) + y) == words(x) + words(y),
    decreases y.len(),
{
    let s = x.push(c) + y;
    if y.len() == 0 {
        assert(s =~= x.push(c));
        assert(s.drop_last() =~= x);
        assert(words(x) + words(y) =~= words(x));
    } else {
        let y2 = y.drop_last();
        lemma_words_concat(x, c, y2);
        assert(s.drop_last() =~= x.push(c) + y2);
        let d = y.last();
        assert(s.last() == d);
        let prev = words(x) + words(y2);
        if is_ws(d) {
        } else if y.len() >= 2 && !is_ws(y[y.len() - 2]) {
            assert(s[s.len() - 2] == y[y.len() - 2]);
            assert(y2.last() == y[y.len() - 2]);
            lemma_words_nonempty(y2);
            assert(words(x) + words(y) =~= prev.update(prev.len() - 1, prev.last().push(d)));
        } else {
            if y.len() >= 2 {
                assert(s[s.len() - 2] == y[y.len() - 2]);
            } else {
                assert(s[s.len() - 2] == c);
            }
            assert(words(x) + words(y) =~= prev.push(seq![d]));
        }
    }
}

proof fn lemma_words_solid(p: Seq<char>)
    requires
        p.len() > 0,
        forall|j: int| 0 <= j < p.len() ==> !is_ws(#[trigger] p[j]),
    ensures
        words(p) == seq![p],
    decreases p.len(),
{
    let q = p.drop_last();
    assert(!is_ws(p[p.len() - 1]));
    if q.len() == 0 {
        assert(q =~= Seq::<char>::empty());
        assert(words(q) =~= Seq::<Seq<char>>::empty());
        assert(seq![p.last()] =~= p);
        assert(words(p) =~= Seq::<Seq<char>>::empty().push(seq![p.last()]));
    } else {
        lemma_words_solid(q);
        assert(!is_ws(p[p.len() - 2]));
        assert(q.push(p.last()) =~= p);
        assert(seq![q].update(0, q.push(p.last())) =~= seq![p]);
    }
}

proof fn lemma_digit_char(d: nat)
    requires
        d < 10,
    ensures
        is_digit(digit_char(d)),
        digit_char(d) as nat - '0' as nat == d,
        !is_ws(digit_char(d)),
{
    if d == 0 {
    } else if d == 1 {
    } else if d == 2 {
    } else if d == 3 {
    } else if d == 4 {
    } else if d == 5 {
    } else if d == 6 {
    } else if d == 7 {
    } else if d == 8 {
    } else {
    }
}

proof fn lemma_decimal(n: nat)
    ensures
        decimal(n).len() > 0,
        all_digits(decimal(n)),
        forall|j: int| 0 <= j < decimal(n).len() ==> !is_ws(#[trigger] decimal(n)[j]),
        digits_value(decimal(n)) == n,
    decreases n,
{
    if n < 10 {
        lemma_digit_char(n);
        let d = decimal(n);
        assert(d.drop_last() =~= Seq::<char>::empty());
        assert(digits_value(d.drop_last()) == 0);
        assert(d.last() == digit_char(n));
    } else {
        lemma_decimal(n / 10);
        lemma_digit_char(n % 10);
        let d = decimal(n);
        let p = decimal(n / 10);
        assert(d.drop_last() =~= p);
        assert(d.last() == digit_char(n % 10));
        assert(digits_value(d) == digits_value(p) * 10 + (n % 10));
        assert(n == (n / 10) * 10 + n % 10);
        assert forall|j: int| 0 <= j < d.len() implies #[trigger] is_digit(d[j]) && !is_ws(d[j]) by {
            if j < p.len() {
                assert(d[j] == p[j]);
                assert(is_digit(p[j]));
            }
        }
    }
}

proof fn lemma_entry_line(e: (Seq<char>, usize))
    requires
        valid_name(e.0),
    ensures
        parse_line(entry_text(e)) == Some(e),
        forall|j: int| 0 <= j < entry_text(e).len() ==> #[trigger] entry_text(e)[j] != '\n',
        !is_ws(entry_text(e)[0]),
        !is_ws(entry_text(e).last()),
        entry_line(e) == entry_text(e).push('\n'),
{
    let t = entry_text(e);
    let dec = decimal(e.1 as nat);
    lemma_decimal(e.1 as nat);
    lemma_words_concat(e.0, ' ', dec);
    assert(t =~= e.0.push(' ') + dec);
    lemma_words_solid(e.0);
    lemma_words_solid(dec);
    assert(words(t) =~= seq![e.0, dec]);
    assert(is_digit(dec[0]));
    assert(id_digits(dec) == dec);
    assert forall|j: int| 0 <= j < t.len() implies #[trigger] t[j] != '\n' by {
        if j < e.0.len() {
            assert(!is_ws(e.0[j]));
        } else if j > e.0.len() {
            assert(t[j] == dec[j - e.0.len() - 1]);
            assert(!is_ws(dec[j - e.0.len() - 1]));
        }
    }
    assert(t[0] == e.0[0]);
    assert(t.last() == dec.last());
    assert(!is_ws(dec[dec.len() - 1]));
    assert(entry_line(e) =~= t.push('\n'));
}

proof fn lemma_render_shape(es: Seq<(Seq<char>, usize)>)
    requires
        es.len() > 0,
        forall|i: int| 0 <= i < es.len() ==> valid_name(#[trigger] es[i].0),
    ensures
        render(es).len() > 0,
        render(es).last() == '\n',
        !is_ws(render(es)[0]),
        render(es).drop_last() == render(es.drop_last()) + entry_text(es.last()),
        !is_ws(render(es).drop_last().last()),
    decreases es.len(),
{
    let e = es.last();
    let pre = es.drop_last();
    assert(valid_name(es[es.len() - 1].0));
    lemma_entry_line(e);
    let t = entry_text(e);
    let r = render(es);
    assert(r == render(pre) + t.push('\n'));
    assert(r.drop_last() =~= render(pre) + t);
    assert(r.drop_last().last() == t.last());
    if pre.len() == 0 {
        assert(render(pre) =~= Seq::<char>::empty());
        assert(r[0] == t[0]);
    } else {
        assert forall|i: int| 0 <= i < pre.len() implies valid_name(#[trigger] pre[i].0) by {
            assert(pre[i] == es[i]);
        }
        lemma_render_shape(pre);
        assert(r[0] == render(pre)[0]);
    }
}

proof fn lemma_render_lines(es: Seq<(Seq<char>, usize)>)
    requires
        es.len() > 0,
        forall|i: int| 0 <= i < es.len() ==> valid_name(#[trigger] es[i].0),
    ensures
        split_lines(render(es).drop_last()) == entry_texts(es),
    decreases es.len(),
{
    let e = es.last();
    let pre = es.drop_last();
    assert(valid_name(es[es.len() - 1].0));
    lemma_entry_line(e);
    let t = entry_text(e);
    lemma_render_shape(es);
    lemma_split_single(t);
    if pre.len() == 0 {
        assert(render(pre) =~= Seq::<char>::empty());
        assert(render(es).drop_last() =~= t);
        assert(entry_texts(pre) =~= Seq::<Seq<char>>::empty());
        assert(entry_texts(es) =~= seq![t]);
    } else {
        assert forall|i: int| 0 <= i < pre.len() implies valid_name(#[trigger] pre[i].0) by {
            assert(pre[i] == es[i]);
        }
        lemma_render_lines(pre);
        lemma_render_shape(pre);
        let rp = render(pre);
        assert(rp =~= rp.drop_last() + seq!['\n']);
        assert(render(es).drop_last() =~= rp.drop_last() + seq!['\n'] + t);
        lemma_split_concat(rp.drop_last(), t);
        assert(entry_texts(es) =~= entry_texts(pre) + seq![t]);
    }
}

proof fn lemma_parse_texts(es: Seq<(Seq<char>, usize)>)
    requires
        forall|i: int| 0 <= i < es.len() ==> valid_name(#[trigger] es[i].0),
    ensures
        parse_lines(entry_texts(es)) == Some(es),
    decreases es.len(),
{
    if es.len() > 0 {
        let pre = es.drop_last();
        assert forall|i: int| 0 <= i < pre.len() implies valid_name(#[trigger] pre[i].0) by {
            assert(pre[i] == es[i]);
        }
        lemma_parse_texts(pre);
        let ls = entry_texts(es);
        assert(ls.drop_last() =~= entry_texts(pre));
        assert(valid_name(es[es.len() - 1].0));
        lemma_entry_line(es.last());
        assert(pre.push(es.last()) =~= es);
    } else {
        assert(es =~= Seq::<(Seq<char>, usize)>::empty());
    }
}

/// A file list written for entries whose names are not empty and hold no white
/// space reads back as those entries, in order.
pub proof fn lemma_render_then_parse(es: Seq<(Seq<char>, usize)>)
    requires
        forall|i: int| 0 <= i < es.len() ==> valid_name(#[trigger] es[i].0),
    ensures
        file_id_entries(render(es)) == Some(es),
{
    if es.len() == 0 {
        assert(es =~= Seq::<(Seq<char>, usize)>::empty());
    } else {
        lemma_render_shape(es);
        lemma_render_lines(es);
        let r = render(es);
        // trimming drops exactly the final '\n'
        assert(trim_start(r) == r);
        let d = r.drop_last();
        assert(d.last() == r[r.len() - 2]);
        assert(trim_end(r) == trim_end(d));
        assert(trim_end(d) == d);
        lemma_parse_texts(es);
    }
}

} // verus!
