//! Text as sequences of characters: the string vocabulary of the contracts,
//! and the executable functions that compute it.

use vstd::prelude::*;

verus! {

/// The characters with the Unicode property `White_Space`.
pub open spec fn is_space(c: char) -> bool {
    let n = c as int;
    ||| 0x9 <= n <= 0xd
    ||| n == 0x20
    ||| n == 0x85
    ||| n == 0xa0
    ||| n == 0x1680
    ||| 0x2000 <= n <= 0x200a
    ||| n == 0x2028
    ||| n == 0x2029
    ||| n == 0x202f
    ||| n == 0x205f
    ||| n == 0x3000
}

/// Which characters a strip takes off the ends of a text.
#[derive(Clone, Copy)]
pub enum Strip {
    Space,
    Only(char),
}

impl Strip {
    pub open spec fn drops(self, c: char) -> bool {
        match self {
            Strip::Space => is_space(c),
            Strip::Only(x) => c == x,
        }
    }

    fn drops_char(self, c: char) -> (r: bool)
        ensures
            r == self.drops(c),
    {
        match self {
            Strip::Space => {
                let n: u32 = c as u32;
                (0x9 <= n && n <= 0xd) || n == 0x20 || n == 0x85 || n == 0xa0 || n == 0x1680
                    || (0x2000 <= n && n <= 0x200a) || n == 0x2028 || n == 0x2029 || n == 0x202f
                    || n == 0x205f || n == 0x3000
            },
            Strip::Only(x) => c == x,
        }
    }
}

/// `s` without the longest run of dropped characters at its start.
pub open spec fn strip_start(s: Seq<char>, k: Strip) -> Seq<char>
    decreases s.len(),
{
    if s.len() > 0 && k.drops(s.first()) {
        strip_start(s.drop_first(), k)
    } else {
        s
    }
}

/// `s` without the longest run of dropped characters at its end.
pub open spec fn strip_end(s: Seq<char>, k: Strip) -> Seq<char>
    decreases s.len(),
{
    if s.len() > 0 && k.drops(s.last()) {
        strip_end(s.drop_last(), k)
    } else {
        s
    }
}

/// `s` stripped at both ends.
pub open spec fn strip_both(s: Seq<char>, k: Strip) -> Seq<char> {
    strip_end(strip_start(s, k), k)
}

/// `s` without surrounding white space.
pub open spec fn trimmed(s: Seq<char>) -> Seq<char> {
    strip_both(s, Strip::Space)
}

/// `pat` stands in `s` at position `i`.
pub open spec fn occurs_at(s: Seq<char>, pat: Seq<char>, i: int) -> bool {
    0 <= i && i + pat.len() <= s.len() && s.subrange(i, i + pat.len()) == pat
}

/// The first position from `from` on at which `pat` stands in `s`.
pub open spec fn find_from(s: Seq<char>, pat: Seq<char>, from: int) -> Option<int>
    decreases s.len() - from,
{
    if from < 0 || from + pat.len() > s.len() {
        None
    } else if occurs_at(s, pat, from) {
        Some(from)
    } else if from == s.len() {
        None
    } else {
        find_from(s, pat, from + 1)
    }
}

/// The first position at which `pat` stands in `s`.
pub open spec fn find(s: Seq<char>, pat: Seq<char>) -> Option<int> {
    find_from(s, pat, 0)
}

/// `find_from` names the least position: what it returns is an occurrence, and
/// no earlier position from `from` on is one.
pub proof fn lemma_find_from(s: Seq<char>, pat: Seq<char>, from: int)
    requires
        0 <= from,
    ensures
        match find_from(s, pat, from) {
            Some(i) => {
                &&& from <= i
                &&& occurs_at(s, pat, i)
                &&& forall|j: int| from <= j < i ==> !occurs_at(s, pat, j)
            },
            None => forall|j: int| from <= j ==> !occurs_at(s, pat, j),
        },
    decreases s.len() - from,
{
    if from + pat.len() > s.len() {
    } else if occurs_at(s, pat, from) {
    } else if from == s.len() {
    } else {
        lemma_find_from(s, pat, from + 1);
    }
}

/// What `find` names is settled by an occurrence with none before it.
pub proof fn lemma_find_is(s: Seq<char>, pat: Seq<char>, i: int)
    requires
        occurs_at(s, pat, i),
        forall|j: int| 0 <= j < i ==> !occurs_at(s, pat, j),
    ensures
        find(s, pat) == Some(i),
{
    lemma_find_from(s, pat, 0);
}

/// Searching a suffix is searching from the position where it starts.
pub proof fn lemma_find_skip(s: Seq<char>, pat: Seq<char>, k: int, from: int)
    requires
        0 <= k <= s.len(),
        0 <= from,
    ensures
        find_from(s.skip(k), pat, from) == match find_from(s, pat, k + from) {
            Some(i) => Some(i - k),
            None => None::<int>,
        },
    decreases s.len() - from,
{
    let t = s.skip(k);
    if from + pat.len() <= t.len() {
        assert(t.subrange(from, from + pat.len()) == s.subrange(k + from, k + from + pat.len()));
        if !occurs_at(t, pat, from) && from != t.len() {
            lemma_find_skip(s, pat, k, from + 1);
        }
    }
}

/// The pieces of `s` between the separators.
pub open spec fn split(s: Seq<char>, sep: char) -> Seq<Seq<char>>
    decreases s.len(),
{
    proof {
        lemma_find_from(s, seq![sep], 0);
    }
    match find(s, seq![sep]) {
        None => seq![s],
        Some(i) => seq![s.take(i)] + split(s.skip(i + 1), sep),
    }
}

/// The pieces of two texts with a separator between them are the pieces of the
/// one, then those of the other.
pub proof fn lemma_split_concat(p: Seq<char>, q: Seq<char>, sep: char)
    ensures
        split(p + seq![sep] + q, sep) == split(p, sep) + split(q, sep),
    decreases p.len(),
{
    let pat = seq![sep];
    let s = p + pat + q;
    lemma_find_from(p, pat, 0);
    match find(p, pat) {
        None => {
            assert(occurs_at(s, pat, p.len() as int)) by {
                assert(s.subrange(p.len() as int, p.len() as int + 1) =~= pat);
            }
            assert forall|j: int| 0 <= j < p.len() implies !occurs_at(s, pat, j) by {
                assert(s.subrange(j, j + 1) =~= p.subrange(j, j + 1));
                assert(!occurs_at(p, pat, j));
            }
            lemma_find_is(s, pat, p.len() as int);
            assert(s.take(p.len() as int) =~= p);
            assert(s.skip(p.len() as int + 1) =~= q);
        },
        Some(i) => {
            let rest = p.skip(i + 1);
            assert(s.subrange(i, i + 1) =~= p.subrange(i, i + 1));
            assert forall|j: int| 0 <= j < i implies !occurs_at(s, pat, j) by {
                assert(s.subrange(j, j + 1) =~= p.subrange(j, j + 1));
                assert(!occurs_at(p, pat, j));
            }
            lemma_find_is(s, pat, i);
            assert(s.take(i) =~= p.take(i));
            assert(s.skip(i + 1) =~= rest + pat + q);
            lemma_split_concat(rest, q, sep);
            assert(seq![p.take(i)] + (split(rest, sep) + split(q, sep)) =~= seq![p.take(i)] + split(
                rest,
                sep,
            ) + split(q, sep));
        },
    }
}

/// `s` cut at the first `sep`, which is in neither part.
pub open spec fn split_once(s: Seq<char>, sep: char) -> Option<(Seq<char>, Seq<char>)> {
    match find(s, seq![sep]) {
        None => None,
        Some(i) => Some((s.take(i), s.skip(i + 1))),
    }
}

/// A line without the carriage return of a `\r\n` line end.
pub open spec fn without_cr(s: Seq<char>) -> Seq<char> {
    if s.len() > 0 && s.last() == '\r' {
        s.drop_last()
    } else {
        s
    }
}

/// The lines of `s`, without their line ends (`\n` or `\r\n`); an empty rest
/// after the last line end is no line.
pub open spec fn lines(s: Seq<char>) -> Seq<Seq<char>>
    decreases s.len(),
{
    proof {
        lemma_find_from(s, seq!['\n'], 0);
    }
    if s.len() == 0 {
        seq![]
    } else {
        match find(s, seq!['\n']) {
            None => seq![s],
            Some(i) => seq![without_cr(s.take(i))] + lines(s.skip(i + 1)),
        }
    }
}

/// `parts` one after the other, with `sep` between them.
pub open spec fn joined(parts: Seq<Seq<char>>, sep: Seq<char>) -> Seq<char>
    decreases parts.len(),
{
    if parts.len() == 0 {
        seq![]
    } else if parts.len() == 1 {
        parts[0]
    } else {
        joined(parts.drop_last(), sep) + sep + parts.last()
    }
}

pub open spec fn is_digit(c: char) -> bool {
    '0' as int <= c as int <= '9' as int
}

pub open spec fn digit_value(c: char) -> nat {
    (c as int - '0' as int) as nat
}

pub open spec fn all_digits(s: Seq<char>) -> bool {
    forall|i: int| 0 <= i < s.len() ==> is_digit(#[trigger] s[i])
}

/// The number that the decimal digits `s` write.
pub open spec fn digits_value(s: Seq<char>) -> nat
    decreases s.len(),
{
    if s.len() == 0 {
        0
    } else {
        digits_value(s.drop_last()) * 10 + digit_value(s.last())
    }
}

/// The number that `s` writes: an optional `+`, then one or more decimal
/// digits, up to `max`.
pub open spec fn number_upto(s: Seq<char>, max: nat) -> Option<nat> {
    let d = if s.len() > 0 && s.first() == '+' {
        s.drop_first()
    } else {
        s
    };
    if d.len() > 0 && all_digits(d) && digits_value(d) <= max {
        Some(digits_value(d))
    } else {
        None
    }
}

pub open spec fn digit_char(d: nat) -> char {
    ('0' as int + d) as char
}

/// The decimal digits of `n`.
pub open spec fn decimal(n: nat) -> Seq<char>
    decreases n,
{
    if n < 10 {
        seq![digit_char(n)]
    } else {
        decimal(n / 10).push(digit_char(n % 10))
    }
}

/// All characters are ASCII.
pub open spec fn ascii(s: Seq<char>) -> bool {
    forall|i: int| 0 <= i < s.len() ==> 0 <= (#[trigger] s[i]) as int <= 127
}

/// An ASCII capital letter as its small letter; any other character as it is.
pub open spec fn ascii_lower(c: char) -> char {
    if 'A' as int <= c as int <= 'Z' as int {
        (c as int + 32) as char
    } else {
        c
    }
}

/// The number of bytes that `s` takes in UTF-8.
pub open spec fn utf8_len(s: Seq<char>) -> usize {
    vstd::utf8::encode_utf8(s).len() as usize
}

/// The texts of a sequence of strings.
pub open spec fn texts(v: Seq<String>) -> Seq<Seq<char>> {
    Seq::new(v.len(), |i: int| v[i]@)
}

/// The code point of a character.
pub fn code(c: char) -> (n: u32)
    ensures
        n == c as int,
{
    c as u32
}

/// The characters of `s`.
pub fn chars_of(s: &str) -> (v: Vec<char>)
    ensures
        v@ == s@,
{
    let mut v: Vec<char> = Vec::new();
    for c in it: s.chars()
        invariant
            it.seq() == s@,
            v@ == s@.take(it.index()),
    {
        v.push(c);
    }
    v
}

/// Whether two texts are the same.
pub fn same_text(a: &str, b: &str) -> (r: bool)
    ensures
        r == (a@ == b@),
{
    a.to_owned() == b.to_owned()
}

/// `s` without the dropped characters at its start.
pub fn strip_start_of(s: &str, k: Strip) -> (r: String)
    ensures
        r@ == strip_start(s@, k),
{
    let v = chars_of(s);
    let mut i: usize = 0;
    assert(s@.skip(0) == s@);
    while i < v.len() && k.drops_char(v[i])
        invariant
            i <= v.len(),
            v@ == s@,
            strip_start(s@, k) == strip_start(s@.skip(i as int), k),
        decreases v.len() - i,
    {
        assert(s@.skip(i as int).drop_first() == s@.skip(i + 1));
        i += 1;
    }
    assert(s@.skip(i as int) == s@.subrange(i as int, s@.len() as int));
    s.substring_char(i, v.len()).to_owned()
}

/// `s` without the dropped characters at its end.
pub fn strip_end_of(s: &str, k: Strip) -> (r: String)
    ensures
        r@ == strip_end(s@, k),
{
    let v = chars_of(s);
    let mut i: usize = v.len();
    assert(s@.take(i as int) == s@);
    while i > 0 && k.drops_char(v[i - 1])
        invariant
            i <= v.len(),
            v@ == s@,
            strip_end(s@, k) == strip_end(s@.take(i as int), k),
        decreases i,
    {
        assert(s@.take(i as int).drop_last() == s@.take(i - 1));
        i -= 1;
    }
    assert(s@.take(i as int) == s@.subrange(0, i as int));
    s.substring_char(0, i).to_owned()
}

/// `s` without the dropped characters at either end.
pub fn strip_both_of(s: &str, k: Strip) -> (r: String)
    ensures
        r@ == strip_both(s@, k),
{
    strip_end_of(strip_start_of(s, k).as_str(), k)
}

/// `s` without surrounding white space.
pub fn trim(s: &str) -> (r: String)
    ensures
        r@ == trimmed(s@),
{
    strip_both_of(s, Strip::Space)
}

fn occurs(s: &Vec<char>, pat: &Vec<char>, i: usize) -> (r: bool)
    requires
        i + pat.len() <= s.len(),
    ensures
        r == occurs_at(s@, pat@, i as int),
{
    let mut j: usize = 0;
    while j < pat.len()
        invariant
            i + pat.len() <= s.len(),
            j <= pat.len(),
            forall|l: int| 0 <= l < j ==> s@[i + l] == pat@[l],
        decreases pat.len() - j,
    {
        if s[i + j] != pat[j] {
            assert(s@.subrange(i as int, i + pat@.len())[j as int] != pat@[j as int]);
            return false;
        }
        j += 1;
    }
    assert(s@.subrange(i as int, i + pat@.len()) == pat@);
    true
}

/// The first position from `from` on at which `pat` stands in `s`.
pub fn find_text(s: &Vec<char>, pat: &Vec<char>, from: usize) -> (r: Option<usize>)
    requires
        from <= s.len(),
    ensures
        match r {
            Some(i) => find_from(s@, pat@, from as int) == Some(i as int),
            None => find_from(s@, pat@, from as int) is None,
        },
{
    let mut i: usize = from;
    loop
        invariant
            from <= i <= s.len(),
            find_from(s@, pat@, from as int) == find_from(s@, pat@, i as int),
        decreases s.len() - i,
    {
        if pat.len() > s.len() - i {
            return None;
        }
        if occurs(s, pat, i) {
            return Some(i);
        }
        if i == s.len() {
            return None;
        }
        i += 1;
    }
}

/// The pieces of `s` between the separators.
pub fn split_text(s: &str, sep: char) -> (r: Vec<String>)
    ensures
        texts(r@) == split(s@, sep),
{
    let v = chars_of(s);
    let pat: Vec<char> = vec![sep];
    assert(pat@ == seq![sep]);
    let mut out: Vec<String> = Vec::new();
    let mut pos: usize = 0;
    assert(s@.skip(0) == s@);
    assert(texts(out@) + split(s@, sep) == split(s@, sep));
    loop
        invariant
            v@ == s@,
            pat@ == seq![sep],
            pos <= v.len(),
            texts(out@) + split(s@.skip(pos as int), sep) == split(s@, sep),
        decreases v.len() - pos,
    {
        proof {
            lemma_find_from(s@, seq![sep], pos as int);
            lemma_find_skip(s@, seq![sep], pos as int, 0);
        }
        let ghost rest = s@.skip(pos as int);
        let ghost before = out@;
        match find_text(&v, &pat, pos) {
            None => {
                out.push(s.substring_char(pos, v.len()).to_owned());
                proof {
                    assert(s@.subrange(pos as int, v@.len() as int) == rest);
                    assert(texts(out@) == texts(before) + seq![rest]);
                }
                return out;
            },
            Some(i) => {
                out.push(s.substring_char(pos, i).to_owned());
                proof {
                    assert(s@.subrange(pos as int, i as int) == rest.take(i - pos));
                    assert(rest.skip(i - pos + 1) == s@.skip(i + 1));
                    assert(texts(out@) == texts(before) + seq![rest.take(i - pos)]);
                    assert(texts(out@) + split(s@.skip(i + 1), sep) == texts(before) + (seq![
                        rest.take(i - pos),
                    ] + split(s@.skip(i + 1), sep)));
                }
                pos = i + 1;
            },
        }
    }
}

/// `s` cut at the first `sep`.
pub fn split_once_text(s: &str, sep: char) -> (r: Option<(String, String)>)
    ensures
        match r {
            Some(p) => split_once(s@, sep) == Some((p.0@, p.1@)),
            None => split_once(s@, sep) is None,
        },
{
    let v = chars_of(s);
    let pat: Vec<char> = vec![sep];
    assert(pat@ == seq![sep]);
    proof {
        lemma_find_from(s@, seq![sep], 0);
    }
    match find_text(&v, &pat, 0) {
        None => None,
        Some(i) => {
            assert(i < v.len());
            assert(s@.subrange(0, i as int) == s@.take(i as int));
            assert(s@.subrange(i + 1, v@.len() as int) == s@.skip(i + 1));
            Some((s.substring_char(0, i).to_owned(), s.substring_char(i + 1, v.len()).to_owned()))
        },
    }
}

/// The lines of `s`.
pub fn lines_of(s: &str) -> (r: Vec<String>)
    ensures
        texts(r@) == lines(s@),
{
    let v = chars_of(s);
    let pat: Vec<char> = vec!['\n'];
    assert(pat@ == seq!['\n']);
    let mut out: Vec<String> = Vec::new();
    let mut pos: usize = 0;
    assert(s@.skip(0) == s@);
    assert(texts(out@) + lines(s@) == lines(s@));
    while pos < v.len()
        invariant
            v@ == s@,
            pat@ == seq!['\n'],
            pos <= v.len(),
            texts(out@) + lines(s@.skip(pos as int)) == lines(s@),
        decreases v.len() - pos,
    {
        proof {
            lemma_find_from(s@, seq!['\n'], pos as int);
            lemma_find_skip(s@, seq!['\n'], pos as int, 0);
        }
        let ghost rest = s@.skip(pos as int);
        let ghost before = out@;
        match find_text(&v, &pat, pos) {
            None => {
                out.push(s.substring_char(pos, v.len()).to_owned());
                proof {
                    assert(s@.subrange(pos as int, v@.len() as int) == rest);
                    assert(texts(out@) == texts(before) + seq![rest]);
                }
                return out;
            },
            Some(i) => {
                assert(i < v.len());
                let end: usize = if i > pos && v[i - 1] == '\r' {
                    i - 1
                } else {
                    i
                };
                out.push(s.substring_char(pos, end).to_owned());
                proof {
                    let line = without_cr(rest.take(i - pos));
                    assert(s@.subrange(pos as int, end as int) == line);
                    assert(rest.skip(i - pos + 1) == s@.skip(i + 1));
                    assert(texts(out@) == texts(before) + seq![line]);
                    assert(texts(out@) + lines(s@.skip(i + 1)) == texts(before) + (seq![line]
                        + lines(s@.skip(i + 1))));
                }
                pos = i + 1;
            },
        }
    }
    assert(s@.skip(pos as int).len() == 0);
    assert(texts(out@) + lines(s@.skip(pos as int)) == texts(out@));
    out
}

/// `parts` one after the other, with `sep` between them.
pub fn join(parts: &Vec<String>, sep: &str) -> (r: String)
    ensures
        r@ == joined(texts(parts@), sep@),
{
    let mut out = String::new();
    let ghost all = texts(parts@);
    let mut i: usize = 0;
    while i < parts.len()
        invariant
            i <= parts.len(),
            all == texts(parts@),
            out@ == joined(all.take(i as int), sep@),
        decreases parts.len() - i,
    {
        if i > 0 {
            out.append(sep);
        }
        out.append(parts[i].as_str());
        assert(all.take(i + 1).drop_last() == all.take(i as int));
        i += 1;
    }
    assert(all.take(i as int) == all);
    out
}

proof fn lemma_digits_prefix(s: Seq<char>, i: int)
    requires
        0 <= i <= s.len(),
    ensures
        digits_value(s.take(i)) <= digits_value(s),
    decreases s.len(),
{
    if i == s.len() {
        assert(s.take(i) == s);
    } else {
        lemma_digits_prefix(s.drop_last(), i);
        assert(s.drop_last().take(i) == s.take(i));
    }
}

/// The number that `s` writes, if it writes one up to `max`.
pub fn parse_upto(s: &str, max: usize) -> (r: Option<usize>)
    ensures
        match r {
            Some(n) => number_upto(s@, max as nat) == Some(n as nat),
            None => number_upto(s@, max as nat) is None,
        },
{
    let v = chars_of(s);
    let start: usize = if v.len() > 0 && v[0] == '+' {
        1
    } else {
        0
    };
    let ghost d = s@.skip(start as int);
    assert(start == 0 ==> d == s@);
    assert(start == 1 ==> d == s@.drop_first());
    if start == v.len() {
        return None;
    }
    let mut i: usize = start;
    let mut n: usize = 0;
    while i < v.len()
        invariant
            start <= i <= v.len(),
            v@ == s@,
            d == s@.skip(start as int),
            d == (if s@.len() > 0 && s@.first() == '+' {
                s@.drop_first()
            } else {
                s@
            }),
            all_digits(d.take(i - start)),
            n == digits_value(d.take(i - start)),
            n <= max,
        decreases v.len() - i,
    {
        let c: u32 = code(v[i]);
        assert(d[i - start] == v@[i as int]);
        if c < 0x30 || c > 0x39 {
            assert(!is_digit(d[i - start]));
            return None;
        }
        let x: usize = (c - 0x30) as usize;
        proof {
            assert(d.take(i - start + 1).drop_last() == d.take(i - start));
            assert(digits_value(d.take(i - start + 1)) == n * 10 + x);
            lemma_digits_prefix(d, i - start + 1);
        }
        if n > max / 10 || x > max - n * 10 {
            return None;
        }
        n = n * 10 + x;
        i += 1;
    }
    assert(d.take(i - start) == d);
    Some(n)
}

fn digit_text(d: u8) -> (r: &'static str)
    requires
        d < 10,
    ensures
        r@ == seq![digit_char(d as nat)],
{
    proof {
        reveal_strlit("0");
        reveal_strlit("1");
        reveal_strlit("2");
        reveal_strlit("3");
        reveal_strlit("4");
        reveal_strlit("5");
        reveal_strlit("6");
        reveal_strlit("7");
        reveal_strlit("8");
        reveal_strlit("9");
    }
    let r: &'static str = match d {
        0 => "0",
        1 => "1",
        2 => "2",
        3 => "3",
        4 => "4",
        5 => "5",
        6 => "6",
        7 => "7",
        8 => "8",
        _ => "9",
    };
    assert(r@ =~= seq![digit_char(d as nat)]);
    r
}

/// The decimal digits of `n`.
pub fn decimal_of(n: u128) -> (r: String)
    ensures
        r@ == decimal(n as nat),
    decreases n,
{
    let mut out = if n < 10 {
        String::new()
    } else {
        decimal_of(n / 10)
    };
    out.append(digit_text((n % 10) as u8));
    assert(out@ =~= decimal(n as nat));
    out
}

/// Whether `s` is `word`, up to the case of ASCII letters.
pub fn same_ignoring_ascii_case(s: &str, word: &str) -> (r: bool)
    ensures
        r == (s@.map_values(|c: char| ascii_lower(c)) == word@.map_values(|c: char| ascii_lower(c))),
{
    let a = chars_of(s);
    let b = chars_of(word);
    let ghost la = s@.map_values(|c: char| ascii_lower(c));
    let ghost lb = word@.map_values(|c: char| ascii_lower(c));
    if a.len() != b.len() {
        assert(la.len() != lb.len());
        return false;
    }
    let mut i: usize = 0;
    while i < a.len()
        invariant
            a@ == s@,
            b@ == word@,
            a.len() == b.len(),
            la == s@.map_values(|c: char| ascii_lower(c)),
            lb == word@.map_values(|c: char| ascii_lower(c)),
            i <= a.len(),
            forall|j: int| 0 <= j < i ==> la[j] == lb[j],
        decreases a.len() - i,
    {
        if lower_code(a[i]) != lower_code(b[i]) {
            assert(la[i as int] != lb[i as int]);
            return false;
        }
        i += 1;
    }
    assert(la =~= lb);
    true
}

fn lower_code(c: char) -> (r: u32)
    ensures
        r == ascii_lower(c) as int,
{
    let n: u32 = c as u32;
    if 0x41 <= n && n <= 0x5a {
        n + 32
    } else {
        n
    }
}

/// Whether `s` starts with `head`.
pub fn starts_with(s: &str, head: &str) -> (r: bool)
    ensures
        r == head@.is_prefix_of(s@),
{
    let a = chars_of(s);
    let b = chars_of(head);
    if b.len() > a.len() {
        return false;
    }
    occurs(&a, &b, 0)
}

proof fn lemma_strip_start(a: Seq<char>, m: Seq<char>, k: Strip)
    requires
        forall|i: int| 0 <= i < a.len() ==> k.drops(#[trigger] a[i]),
        m.len() > 0 ==> !k.drops(m.first()),
    ensures
        strip_start(a + m, k) == m,
    decreases a.len(),
{
    if a.len() == 0 {
        assert(a + m =~= m);
    } else {
        assert((a + m).first() == a[0]);
        assert((a + m).drop_first() =~= a.drop_first() + m);
        assert forall|i: int| 0 <= i < a.drop_first().len() implies k.drops(
            #[trigger] a.drop_first()[i],
        ) by {
            assert(a.drop_first()[i] == a[i + 1]);
        }
        lemma_strip_start(a.drop_first(), m, k);
    }
}

/// Stripping the end takes off what is to be dropped there, all of it and nothing else.
pub proof fn law_strip_takes_the_end(m: Seq<char>, b: Seq<char>, k: Strip)
    requires
        forall|i: int| 0 <= i < b.len() ==> k.drops(#[trigger] b[i]),
        m.len() > 0 ==> !k.drops(m.last()),
    ensures
        strip_end(m + b, k) == m,
    decreases b.len(),
{
    if b.len() == 0 {
        assert(m + b =~= m);
    } else {
        assert((m + b).last() == b[b.len() - 1]);
        assert((m + b).drop_last() =~= m + b.drop_last());
        assert forall|i: int| 0 <= i < b.drop_last().len() implies k.drops(
            #[trigger] b.drop_last()[i],
        ) by {
            assert(b.drop_last()[i] == b[i]);
        }
        law_strip_takes_the_end(m, b.drop_last(), k);
    }
}

/// Stripping takes off what is to be dropped at both ends, all of it and nothing
/// else: what lies between stays, with the dropped characters that it holds.
pub proof fn law_strip_takes_the_ends(a: Seq<char>, m: Seq<char>, b: Seq<char>, k: Strip)
    requires
        forall|i: int| 0 <= i < a.len() ==> k.drops(#[trigger] a[i]),
        forall|i: int| 0 <= i < b.len() ==> k.drops(#[trigger] b[i]),
        m.len() > 0 ==> !k.drops(m.first()) && !k.drops(m.last()),
    ensures
        strip_both(a + m + b, k) == m,
{
    if m.len() == 0 {
        let all = a + m + b;
        assert(all =~= (a + b) + Seq::<char>::empty());
        assert forall|i: int| 0 <= i < (a + b).len() implies k.drops(#[trigger] (a + b)[i]) by {
            if i < a.len() {
                assert((a + b)[i] == a[i]);
            } else {
                assert((a + b)[i] == b[i - a.len()]);
            }
        }
        lemma_strip_start(a + b, Seq::<char>::empty(), k);
        assert(m =~= Seq::<char>::empty());
    } else {
        assert(a + m + b =~= a + (m + b));
        assert((m + b).first() == m.first());
        lemma_strip_start(a, m + b, k);
        law_strip_takes_the_end(m, b, k);
    }
}

/// What is left of a text when its end is stripped is its beginning, and does not end
/// in what is dropped.
pub proof fn lemma_strip_end_keeps(s: Seq<char>, k: Strip)
    ensures
        strip_end(s, k).len() <= s.len(),
        strip_end(s, k) == s.take(strip_end(s, k).len() as int),
        strip_end(s, k).len() > 0 ==> !k.drops(strip_end(s, k).last()),
    decreases s.len(),
{
    if s.len() > 0 && k.drops(s.last()) {
        lemma_strip_end_keeps(s.drop_last(), k);
        let t = strip_end(s, k);
        assert(s.drop_last().take(t.len() as int) =~= s.take(t.len() as int));
    } else {
        assert(s.take(s.len() as int) =~= s);
    }
}

proof fn lemma_strip_start_keeps(s: Seq<char>, k: Strip)
    ensures
        strip_start(s, k).len() > 0 ==> !k.drops(strip_start(s, k).first()),
    decreases s.len(),
{
    if s.len() > 0 && k.drops(s.first()) {
        lemma_strip_start_keeps(s.drop_first(), k);
    }
}

/// A trimmed text neither begins nor ends with white space.
pub proof fn lemma_trimmed_ends(s: Seq<char>)
    ensures
        trimmed(s).len() > 0 ==> !is_space(trimmed(s).first()) && !is_space(trimmed(s).last()),
{
    let t = strip_start(s, Strip::Space);
    lemma_strip_start_keeps(s, Strip::Space);
    lemma_strip_end_keeps(t, Strip::Space);
    let u = strip_end(t, Strip::Space);
    if u.len() > 0 {
        assert(u.first() == t[0]);
    }
}

/// Only white space is trimmed away as a whole.
pub proof fn lemma_trimmed_to_nothing(s: Seq<char>)
    requires
        trimmed(s).len() == 0,
    ensures
        forall|i: int| 0 <= i < s.len() ==> is_space(#[trigger] s[i]),
    decreases s.len(),
{
    if s.len() > 0 {
        if is_space(s.first()) {
            lemma_trimmed_to_nothing(s.drop_first());
            assert forall|i: int| 0 <= i < s.len() implies is_space(#[trigger] s[i]) by {
                if i > 0 {
                    assert(s.drop_first()[i - 1] == s[i]);
                }
            }
        } else {
            lemma_all_stripped(s);
            assert(is_space(s[0]));
        }
    }
}

proof fn lemma_all_stripped(s: Seq<char>)
    requires
        strip_end(s, Strip::Space).len() == 0,
    ensures
        forall|i: int| 0 <= i < s.len() ==> is_space(#[trigger] s[i]),
    decreases s.len(),
{
    if s.len() > 0 {
        lemma_all_stripped(s.drop_last());
        assert forall|i: int| 0 <= i < s.len() implies is_space(#[trigger] s[i]) by {
            if i < s.len() - 1 {
                assert(s.drop_last()[i] == s[i]);
            }
        }
    }
}

/// Trimming takes white space off both ends and leaves everything between. Of the
/// ASCII characters the blank and the controls from tab to carriage return are
/// white space; of the others the next line, the line and paragraph separators and
/// the spaces of typography, the non-breaking ones too.
pub proof fn law_trim_takes_white_space(a: Seq<char>, m: Seq<char>, b: Seq<char>)
    requires
        forall|i: int| 0 <= i < a.len() ==> is_space(#[trigger] a[i]),
        forall|i: int| 0 <= i < b.len() ==> is_space(#[trigger] b[i]),
        m.len() > 0 ==> !is_space(m.first()) && !is_space(m.last()),
    ensures
        trimmed(a + m + b) == m,
        trimmed(m) == m,
        forall|c: char| (c as int) < 128 ==> (#[trigger] is_space(c) <==> c == ' ' || 9 <= c as int
            <= 13),
        forall|c: char|
            (c as int) >= 128 ==> (#[trigger] is_space(c) <==> c == '\u{85}' || c == '\u{a0}' || c
                == '\u{1680}' || 0x2000 <= c as int <= 0x200a || c == '\u{2028}' || c == '\u{2029}'
                || c == '\u{202f}' || c == '\u{205f}' || c == '\u{3000}'),
{
    law_strip_takes_the_ends(a, m, b, Strip::Space);
    let none = Seq::<char>::empty();
    assert(none + m + none =~= m);
    law_strip_takes_the_ends(none, m, none, Strip::Space);
}

proof fn lemma_find_sep(a: Seq<char>, sep: char, b: Seq<char>)
    requires
        !a.contains(sep),
    ensures
        find(a + seq![sep] + b, seq![sep]) == Some(a.len() as int),
        find(a, seq![sep]) is None,
{
    let s = a + seq![sep] + b;
    let pat = seq![sep];
    let n = a.len() as int;
    assert(s.subrange(n, n + 1) =~= pat);
    assert forall|j: int| 0 <= j < n implies !occurs_at(s, pat, j) by {
        assert(s.subrange(j, j + 1)[0] == a[j]);
        assert(pat[0] == sep);
        assert(a.contains(a[j]));
    }
    lemma_find_is(s, pat, n);
    lemma_find_from(a, pat, 0);
    assert forall|j: int| 0 <= j implies !occurs_at(a, pat, j) by {
        if j + 1 <= n {
            assert(a.subrange(j, j + 1)[0] == a[j]);
            assert(a.contains(a[j]));
        }
    }
}

/// A text is cut at the first separator: what stands before it has none, and what
/// stands after it is whole. A text without one is not cut.
pub proof fn law_texts_are_cut_at_the_first(a: Seq<char>, sep: char, b: Seq<char>)
    requires
        !a.contains(sep),
    ensures
        split_once(a + seq![sep] + b, sep) == Some((a, b)),
        split_once(a, sep) is None,
{
    lemma_find_sep(a, sep, b);
    let s = a + seq![sep] + b;
    assert(s.take(a.len() as int) =~= a);
    assert(s.skip(a.len() as int + 1) =~= b);
}

/// The pieces of a text are what stands between its separators: a text without
/// one is its only piece, and a separator parts the pieces before it from those
/// after it.
pub proof fn law_pieces_stand_between_separators(a: Seq<char>, sep: char, b: Seq<char>)
    requires
        !a.contains(sep),
    ensures
        split(a, sep) == seq![a],
        split(a + seq![sep] + b, sep) == seq![a] + split(b, sep),
{
    lemma_find_sep(a, sep, b);
    lemma_split_concat(a, b, sep);
}

/// Joined texts stand one after the other in their order, with the separator
/// between every two of them and nowhere else.
pub proof fn law_joined_texts(
    a: Seq<Seq<char>>,
    b: Seq<Seq<char>>,
    t: Seq<char>,
    sep: Seq<char>,
)
    ensures
        joined(seq![], sep) == Seq::<char>::empty(),
        joined(seq![t], sep) == t,
        a.len() > 0 && b.len() > 0 ==> joined(a + b, sep) == joined(a, sep) + sep + joined(b, sep),
    decreases b.len(),
{
    if a.len() > 0 && b.len() > 0 {
        assert((a + b).last() == b.last());
        assert((a + b).drop_last() =~= a + b.drop_last());
        if b.len() == 1 {
            assert(a + b.drop_last() =~= a);
        } else {
            law_joined_texts(a, b.drop_last(), t, sep);
            assert(joined(a, sep) + sep + joined(b.drop_last(), sep) + sep + b.last()
                =~= joined(a, sep) + sep + (joined(b.drop_last(), sep) + sep + b.last()));
        }
    }
}

/// The digits of a number are decimal digits without a zero in front, and read as
/// a number they give it back.
pub proof fn law_digits_give_the_number_back(n: nat, max: nat)
    ensures
        decimal(n).len() > 0,
        forall|i: int|
            0 <= i < decimal(n).len() ==> '0' as int <= (#[trigger] decimal(n)[i]) as int
                <= '9' as int,
        n > 0 ==> decimal(n)[0] != '0',
        n < 10 ==> decimal(n).len() == 1 && decimal(n)[0] as int == '0' as int + n,
        n >= 10 ==> decimal(n) == decimal(n / 10) + decimal(n % 10),
        digits_value(decimal(n)) == n,
        number_upto(decimal(n), max) == if n <= max {
            Some(n)
        } else {
            None
        },
    decreases n,
{
    if n < 10 {
        let d = seq![digit_char(n)];
        assert(d.drop_last() =~= Seq::<char>::empty());
        assert(digits_value(d.drop_last()) == 0);
        assert(all_digits(d));
    } else {
        law_digits_give_the_number_back(n / 10, max);
        let d = decimal(n);
        let h = decimal(n / 10);
        assert(d.drop_last() =~= h);
        assert(d[0] == h[0]);
        assert forall|i: int| 0 <= i < d.len() implies '0' as int <= (#[trigger] d[i]) as int
            <= '9' as int by {
            if i < h.len() {
                assert(d[i] == h[i]);
            }
        }
        assert(d =~= h + decimal(n % 10));
        assert(all_digits(d));
    }
    assert(all_digits(decimal(n)));
    assert(decimal(n).first() != '+');
}

/// A text is a number only if it is made of decimal digits, at least one, after a
/// `+` or nothing. The `+` changes nothing.
pub proof fn law_numbers_are_digits(s: Seq<char>, max: nat)
    ensures
        number_upto(s, max) matches Some(n) ==> n <= max && s.len() > 0 && s.last() != '+'
            && forall|i: int|
            0 <= i < s.len() ==> '0' as int <= (#[trigger] s[i]) as int <= '9' as int || (i == 0
                && s[i] == '+'),
        s.len() > 0 && (forall|i: int|
            0 <= i < s.len() ==> '0' as int <= (#[trigger] s[i]) as int <= '9' as int) ==> {
            &&& number_upto(s, max) == if digits_value(s) <= max {
                Some(digits_value(s))
            } else {
                None
            }
            &&& number_upto(seq!['+'] + s, max) == number_upto(s, max)
        },
{
    if number_upto(s, max) is Some {
        let d = if s.first() == '+' {
            s.drop_first()
        } else {
            s
        };
        assert(d.last() == s.last());
        assert(is_digit(d[d.len() - 1]));
        assert forall|i: int| 0 <= i < s.len() implies '0' as int <= (#[trigger] s[i]) as int
            <= '9' as int || (i == 0 && s[i] == '+') by {
            if s.first() != '+' {
                assert(is_digit(d[i]));
            } else if i > 0 {
                assert(d[i - 1] == s[i]);
                assert(is_digit(d[i - 1]));
            }
        }
    }
    if s.len() > 0 && (forall|i: int|
        0 <= i < s.len() ==> '0' as int <= (#[trigger] s[i]) as int <= '9' as int) {
        assert(s[0] != '+');
        assert(all_digits(s));
        let p = seq!['+'] + s;
        assert(p.first() == '+');
        assert(p.drop_first() =~= s);
    }
}

/// Lines end at a line feed, before which a carriage return belongs to the line end;
/// what follows the last line feed is a line where it is not empty.
pub proof fn law_lines_end_at_line_feeds(a: Seq<char>, b: Seq<char>)
    requires
        !a.contains('\n'),
    ensures
        lines(seq![]).len() == 0,
        a.len() > 0 ==> lines(a) == seq![a],
        a.len() > 0 && a.last() == '\r' ==> lines(a + seq!['\n'] + b) == seq![a.drop_last()] + lines(
            b,
        ),
        (a.len() > 0 ==> a.last() != '\r') ==> lines(a + seq!['\n'] + b) == seq![a] + lines(b),
{
    lemma_find_sep(a, '\n', b);
    let s = a + seq!['\n'] + b;
    assert(s.take(a.len() as int) =~= a);
    assert(s.skip(a.len() as int + 1) =~= b);
}

/// Digits are read from the left, each one ten times less than the one before it.
pub proof fn law_digits_are_read_from_the_left(s: Seq<char>, c: char)
    requires
        '0' as int <= c as int <= '9' as int,
    ensures
        digits_value(seq![]) == 0,
        digits_value(s + seq![c]) == 10 * digits_value(s) + (c as int - '0' as int),
{
    assert((s + seq![c]).drop_last() =~= s);
    assert((s + seq![c]).last() == c);
}

} // verus!
