//! Character-level text handling shared by the parsers.
use vstd::prelude::*;

verus! {

/// ASCII lower-casing of one character; every other character is kept.
pub open spec fn lower_char(c: char) -> char {
    if 'A' <= c && c <= 'Z' {
        ((c as u32) + 32) as char
    } else {
        c
    }
}

/// ASCII lower-casing of a whole text.
pub open spec fn lower_seq(s: Seq<char>) -> Seq<char> {
    s.map_values(|c: char| lower_char(c))
}

/// The characters of `s`, in order.
pub fn chars_of(s: &str) -> (r: Vec<char>)
    ensures
        r@ == s@,
{
    let mut r: Vec<char> = Vec::new();
    for c in it: s.chars()
        invariant
            r@ == it.seq().take(it.index() as int),
    {
        r.push(c);
    }
    r
}

/// A `String` holding exactly the characters of `v`.
#[verifier::external_body]
pub fn string_of(v: &Vec<char>) -> (r: String)
    ensures
        r@ == v@,
{
    v.iter().collect()
}

pub fn lower_char_exec(c: char) -> (r: char)
    ensures
        r == lower_char(c),
{
    if 'A' <= c && c <= 'Z' {
        let b: u8 = (c as u8) + 32;
        b as char
    } else {
        c
    }
}


/// ASCII lower-casing of every character of `s`.
pub fn lower_vec(s: &Vec<char>) -> (r: Vec<char>)
    ensures
        r@ == lower_seq(s@),
{
    let mut r: Vec<char> = Vec::new();
    let mut i: usize = 0;
    while i < s.len()
        invariant
            i <= s.len(),
            r@.len() == i,
            forall|j: int| 0 <= j < i ==> r@[j] == lower_char(s@[j]),
        decreases s.len() - i,
    {
        r.push(lower_char_exec(s[i]));
        i = i + 1;
    }
    assert(r@ =~= lower_seq(s@));
    r
}

/// `s` without its leading characters equal to `c`.
pub open spec fn trim_start_char(s: Seq<char>, c: char) -> Seq<char>
    decreases s.len(),
{
    if s.len() > 0 && s[0] == c {
        trim_start_char(s.drop_first(), c)
    } else {
        s
    }
}

/// `s` without its trailing characters equal to `c`.
pub open spec fn trim_end_char(s: Seq<char>, c: char) -> Seq<char>
    decreases s.len(),
{
    if s.len() > 0 && s.last() == c {
        trim_end_char(s.drop_last(), c)
    } else {
        s
    }
}

/// `s` without the characters equal to `c` at either end.
pub open spec fn trim_char(s: Seq<char>, c: char) -> Seq<char> {
    trim_end_char(trim_start_char(s, c), c)
}

/// The characters of `s` from `lo` to `hi`.
pub fn sub_vec(s: &Vec<char>, lo: usize, hi: usize) -> (r: Vec<char>)
    requires
        lo <= hi <= s.len(),
    ensures
        r@ == s@.subrange(lo as int, hi as int),
{
    let mut r: Vec<char> = Vec::new();
    let mut i: usize = lo;
    while i < hi
        invariant
            lo <= i <= hi <= s.len(),
            r@ == s@.subrange(lo as int, i as int),
        decreases hi - i,
    {
        r.push(s[i]);
        i = i + 1;
        assert(r@ =~= s@.subrange(lo as int, i as int));
    }
    r
}

/// Removes every leading and trailing `c` from `s`.
pub fn trim_char_vec(s: &Vec<char>, c: char) -> (r: Vec<char>)
    ensures
        r@ == trim_char(s@, c),
{
    let mut lo: usize = 0;
    assert(s@.subrange(0, s@.len() as int) =~= s@);
    while lo < s.len() && s[lo] == c
        invariant
            lo <= s.len(),
            trim_start_char(s@, c) == trim_start_char(s@.subrange(lo as int, s@.len() as int), c),
        decreases s.len() - lo,
    {
        assert(s@.subrange(lo as int, s@.len() as int).drop_first() =~= s@.subrange(
            lo + 1,
            s@.len() as int,
        ));
        lo = lo + 1;
    }
    let ghost t = s@.subrange(lo as int, s@.len() as int);
    assert(trim_start_char(s@, c) == t);
    let mut hi: usize = s.len();
    while hi > lo && s[hi - 1] == c
        invariant
            lo <= hi <= s.len(),
            t == s@.subrange(lo as int, s@.len() as int),
            trim_end_char(t, c) == trim_end_char(s@.subrange(lo as int, hi as int), c),
        decreases hi,
    {
        assert(s@.subrange(lo as int, hi as int).drop_last() =~= s@.subrange(
            lo as int,
            hi - 1,
        ));
        hi = hi - 1;
    }
    sub_vec(s, lo, hi)
}

/// Does `sep` occur in `s` at position `i`?
pub fn matches_at(s: &Vec<char>, i: usize, sep: &Vec<char>) -> (r: bool)
    requires
        i + sep.len() <= s.len(),
    ensures
        r == (s@.subrange(i as int, i + sep.len()) == sep@),
{
    let mut k: usize = 0;
    while k < sep.len()
        invariant
            k <= sep.len(),
            i + sep.len() <= s.len(),
            forall|j: int| 0 <= j < k ==> s@[i + j] == sep@[j],
        decreases sep.len() - k,
    {
        if s[i + k] != sep[k] {
            assert(s@.subrange(i as int, i + sep.len())[k as int] != sep@[k as int]);
            return false;
        }
        k = k + 1;
    }
    assert(s@.subrange(i as int, i + sep.len()) =~= sep@);
    true
}

/// The pieces of `s` between the non-overlapping occurrences of `sep`,
/// found from left to right; `cur` is the start of the first piece.
pub open spec fn split_acc(s: Seq<char>, sep: Seq<char>, cur: Seq<char>) -> Seq<Seq<char>>
    decreases s.len(),
{
    if sep.len() == 0 || s.len() < sep.len() {
        seq![cur + s]
    } else if s.take(sep.len() as int) == sep {
        seq![cur] + split_acc(s.skip(sep.len() as int), sep, Seq::empty())
    } else {
        split_acc(s.skip(1), sep, cur.push(s[0]))
    }
}

/// The pieces of `s` between the non-overlapping occurrences of `sep`.
pub open spec fn split_seq(s: Seq<char>, sep: Seq<char>) -> Seq<Seq<char>> {
    split_acc(s, sep, Seq::empty())
}

/// The views of a vector of character vectors.
pub open spec fn views(v: Seq<Vec<char>>) -> Seq<Seq<char>> {
    v.map_values(|x: Vec<char>| x@)
}

/// Splits `s` at every non-overlapping occurrence of `sep`, left to right.
pub fn split_by(s: &Vec<char>, sep: &Vec<char>) -> (r: Vec<Vec<char>>)
    requires
        sep.len() > 0,
    ensures
        views(r@) == split_seq(s@, sep@),
{
    let mut parts: Vec<Vec<char>> = Vec::new();
    let mut cur: Vec<char> = Vec::new();
    let mut i: usize = 0;
    assert(s@.skip(0) =~= s@);
    assert(views(parts@) =~= Seq::<Seq<char>>::empty());
    while i < s.len() && s.len() - i >= sep.len()
        invariant
            sep.len() > 0,
            i <= s.len(),
            views(parts@) + split_acc(s@.skip(i as int), sep@, cur@) == split_seq(s@, sep@),
        decreases s.len() - i,
    {
        let ghost rest = s@.skip(i as int);
        assert(rest.take(sep.len() as int) =~= s@.subrange(i as int, i + sep.len()));
        if matches_at(s, i, sep) {
            assert(rest.skip(sep.len() as int) =~= s@.skip(i + sep.len()));
            assert(views(parts@.push(cur)) =~= views(parts@) + seq![cur@]);
            assert(views(parts@) + split_acc(rest, sep@, cur@) =~= views(parts@.push(cur))
                + split_acc(s@.skip(i + sep.len()), sep@, Seq::empty()));
            parts.push(cur);
            cur = Vec::new();
            i = i + sep.len();
        } else {
            assert(rest.skip(1) =~= s@.skip(i + 1));
            cur.push(s[i]);
            i = i + 1;
        }
    }
    let ghost rest = s@.skip(i as int);
    let tail = sub_vec(s, i, s.len());
    assert(tail@ =~= rest);
    let mut last = cur;
    let mut k: usize = 0;
    let ghost cur0 = last@;
    while k < tail.len()
        invariant
            k <= tail.len(),
            last@ == cur0 + tail@.take(k as int),
        decreases tail.len() - k,
    {
        last.push(tail[k]);
        k = k + 1;
        assert(last@ =~= cur0 + tail@.take(k as int));
    }
    assert(tail@.take(tail@.len() as int) =~= tail@);
    assert(views(parts@.push(last)) =~= views(parts@) + seq![last@]);
    parts.push(last);
    parts
}


/// The Unicode `White_Space` characters, as `char::is_whitespace` documents them.
pub open spec fn is_ws(c: char) -> bool {
    ||| ('\t' <= c && c <= '\r')
    ||| c == ' '
    ||| c == '\u{85}'
    ||| c == '\u{a0}'
    ||| c == '\u{1680}'
    ||| ('\u{2000}' <= c && c <= '\u{200a}')
    ||| c == '\u{2028}'
    ||| c == '\u{2029}'
    ||| c == '\u{202f}'
    ||| c == '\u{205f}'
    ||| c == '\u{3000}'
}

pub fn is_ws_exec(c: char) -> (r: bool)
    ensures
        r == is_ws(c),
{
    ('\t' <= c && c <= '\r') || c == ' ' || c == '\u{85}' || c == '\u{a0}' || c == '\u{1680}'
        || ('\u{2000}' <= c && c <= '\u{200a}') || c == '\u{2028}' || c == '\u{2029}'
        || c == '\u{202f}' || c == '\u{205f}' || c == '\u{3000}'
}

/// `cur` as a list of one piece, or no piece when it is empty.
pub open spec fn nonempty_piece(cur: Seq<char>) -> Seq<Seq<char>> {
    if cur.len() == 0 {
        Seq::empty()
    } else {
        seq![cur]
    }
}

/// The maximal runs of non-whitespace characters of `s`; `cur` is a run already begun.
pub open spec fn tokens_acc(s: Seq<char>, cur: Seq<char>) -> Seq<Seq<char>>
    decreases s.len(),
{
    if s.len() == 0 {
        nonempty_piece(cur)
    } else if is_ws(s[0]) {
        nonempty_piece(cur) + tokens_acc(s.drop_first(), Seq::empty())
    } else {
        tokens_acc(s.drop_first(), cur.push(s[0]))
    }
}

/// The whitespace-separated words of `s`, as `str::split_whitespace` gives them.
pub open spec fn ws_tokens(s: Seq<char>) -> Seq<Seq<char>> {
    tokens_acc(s, Seq::empty())
}

pub fn split_whitespace_vec(s: &Vec<char>) -> (r: Vec<Vec<char>>)
    ensures
        views(r@) == ws_tokens(s@),
{
    let mut parts: Vec<Vec<char>> = Vec::new();
    let mut cur: Vec<char> = Vec::new();
    let mut i: usize = 0;
    assert(s@.skip(0) =~= s@);
    assert(views(parts@) =~= Seq::<Seq<char>>::empty());
    while i < s.len()
        invariant
            i <= s.len(),
            views(parts@) + tokens_acc(s@.skip(i as int), cur@) == ws_tokens(s@),
        decreases s.len() - i,
    {
        let ghost rest = s@.skip(i as int);
        assert(rest.drop_first() =~= s@.skip(i + 1));
        assert(rest[0] == s@[i as int]);
        if is_ws_exec(s[i]) {
            assert(tokens_acc(rest, cur@) == nonempty_piece(cur@) + tokens_acc(
                s@.skip(i + 1),
                Seq::empty(),
            ));
            if cur.len() > 0 {
                assert(views(parts@.push(cur)) =~= views(parts@) + nonempty_piece(cur@));
                parts.push(cur);
                cur = Vec::new();
            } else {
                assert(views(parts@) + nonempty_piece(cur@) =~= views(parts@));
            }
            assert(cur@ =~= Seq::<char>::empty());
        } else {
            assert(tokens_acc(rest, cur@) == tokens_acc(s@.skip(i + 1), cur@.push(s@[i as int])));
            cur.push(s[i]);
        }
        i = i + 1;
    }
    assert(s@.skip(i as int) =~= Seq::<char>::empty());
    if cur.len() > 0 {
        assert(views(parts@.push(cur)) =~= views(parts@) + nonempty_piece(cur@));
        parts.push(cur);
    } else {
        assert(views(parts@) + nonempty_piece(cur@) =~= views(parts@));
    }
    parts
}

/// A line without the carriage return that ended it before its line feed.
pub open spec fn strip_cr(line: Seq<char>) -> Seq<char> {
    if line.len() > 0 && line.last() == '\r' {
        line.drop_last()
    } else {
        line
    }
}

/// The lines of `s`, as `str::lines` gives them; `cur` is a line already begun.
pub open spec fn lines_acc(s: Seq<char>, cur: Seq<char>) -> Seq<Seq<char>>
    decreases s.len(),
{
    if s.len() == 0 {
        nonempty_piece(cur)
    } else if s[0] == '\n' {
        seq![strip_cr(cur)] + lines_acc(s.drop_first(), Seq::empty())
    } else {
        lines_acc(s.drop_first(), cur.push(s[0]))
    }
}

/// The lines of `s`: split at each `\n`, a `\r` right before it dropped,
/// and no empty last line after a final `\n`.
pub open spec fn lines_of(s: Seq<char>) -> Seq<Seq<char>> {
    lines_acc(s, Seq::empty())
}

pub fn lines_vec(s: &Vec<char>) -> (r: Vec<Vec<char>>)
    ensures
        views(r@) == lines_of(s@),
{
    let mut parts: Vec<Vec<char>> = Vec::new();
    let mut cur: Vec<char> = Vec::new();
    let mut i: usize = 0;
    assert(s@.skip(0) =~= s@);
    while i < s.len()
        invariant
            i <= s.len(),
            views(parts@) + lines_acc(s@.skip(i as int), cur@) == lines_of(s@),
        decreases s.len() - i,
    {
        assert(s@.skip(i as int).drop_first() =~= s@.skip(i + 1));
        if s[i] == '\n' {
            if cur.len() > 0 && cur[cur.len() - 1] == '\r' {
                cur.pop();
            }
            assert(views(parts@.push(cur)) =~= views(parts@) + seq![cur@]);
            parts.push(cur);
            cur = Vec::new();
        } else {
            cur.push(s[i]);
        }
        i = i + 1;
    }
    assert(s@.skip(i as int) =~= Seq::<char>::empty());
    if cur.len() > 0 {
        assert(views(parts@.push(cur)) =~= views(parts@) + nonempty_piece(cur@));
        parts.push(cur);
    } else {
        assert(views(parts@) + nonempty_piece(cur@) =~= views(parts@));
    }
    parts
}

pub open spec fn is_digit(c: char) -> bool {
    '0' <= c && c <= '9'
}

pub open spec fn digit_val(c: char) -> int {
    (c as int) - ('0' as int)
}

/// The decimal number that the digits `d` write.
pub open spec fn digits_value(d: Seq<char>) -> int
    decreases d.len(),
{
    if d.len() == 0 {
        0
    } else {
        digits_value(d.drop_last()) * 10 + digit_val(d.last())
    }
}

pub open spec fn all_digits(d: Seq<char>) -> bool {
    forall|i: int| 0 <= i < d.len() ==> is_digit(#[trigger] d[i])
}

/// The digits that `u64::from_str` reads: all of `s` but a leading `+`.
pub open spec fn unsigned_digits(s: Seq<char>) -> Seq<char> {
    if s.len() > 0 && s[0] == '+' {
        s.drop_first()
    } else {
        s
    }
}

/// What `s.parse::<u64>()` gives: a number for an optional `+` followed by
/// at least one decimal digit and nothing else, whose value fits in a `u64`.
pub open spec fn parse_u64_spec(s: Seq<char>) -> Option<u64> {
    let d = unsigned_digits(s);
    if d.len() > 0 && all_digits(d) && digits_value(d) <= u64::MAX {
        Some(digits_value(d) as u64)
    } else {
        None
    }
}

proof fn lemma_digits_value_nonneg(d: Seq<char>)
    requires
        all_digits(d),
    ensures
        digits_value(d) >= 0,
    decreases d.len(),
{
    if d.len() > 0 {
        assert(is_digit(d[d.len() - 1]));
        lemma_digits_value_nonneg(d.drop_last());
    }
}

pub fn parse_u64(s: &Vec<char>) -> (r: Option<u64>)
    ensures
        r == parse_u64_spec(s@),
{
    let start: usize = if s.len() > 0 && s[0] == '+' { 1 } else { 0 };
    let ghost d = unsigned_digits(s@);
    assert(d =~= s@.subrange(start as int, s@.len() as int));
    if start >= s.len() {
        return None;
    }
    let mut acc: u64 = 0;
    let mut overflow = false;
    let mut i: usize = start;
    while i < s.len()
        invariant
            start <= i <= s.len(),
            d == s@.subrange(start as int, s@.len() as int),
            d == unsigned_digits(s@),
            all_digits(d.take(i - start)),
            !overflow ==> acc == digits_value(d.take(i - start)),
            overflow ==> digits_value(d.take(i - start)) > u64::MAX,
        decreases s.len() - i,
    {
        let c = s[i];
        if !('0' <= c && c <= '9') {
            assert(d[i - start] == c);
            assert(!is_digit(d[i - start]));
            assert(!all_digits(d));
            assert(parse_u64_spec(s@) is None);
            return None;
        }
        let ghost k = i - start;
        assert(d.take(k + 1).drop_last() =~= d.take(k));
        assert(d.take(k + 1).last() == c);
        assert(all_digits(d.take(k + 1)));
        proof {
            lemma_digits_value_nonneg(d.take(k));
        }
        let dv: u64 = (c as u32 - '0' as u32) as u64;
        if !overflow {
            if acc > (u64::MAX - dv) / 10 {
                overflow = true;
            } else {
                acc = acc * 10 + dv;
            }
        }
        i = i + 1;
    }
    assert(d.take(i - start) =~= d);
    if overflow {
        None
    } else {
        Some(acc)
    }
}

/// `s` occurs in `t` starting at position `k`.
pub open spec fn occurs_at(t: Seq<char>, s: Seq<char>, k: int) -> bool {
    0 <= k && k + s.len() <= t.len() && t.subrange(k, k + s.len()) == s
}

/// `s` is a substring of `t`, as `str::contains` decides.
pub open spec fn contains_seq(t: Seq<char>, s: Seq<char>) -> bool {
    exists|k: int| occurs_at(t, s, k)
}

pub fn contains_vec(t: &Vec<char>, s: &Vec<char>) -> (r: bool)
    ensures
        r == contains_seq(t@, s@),
{
    if s.len() > t.len() {
        return false;
    }
    if s.len() == 0 {
        assert(t@.subrange(0, 0) =~= s@);
        assert(occurs_at(t@, s@, 0));
        return true;
    }
    let mut k: usize = 0;
    while t.len() - k >= s.len()
        invariant
            1 <= s.len() <= t.len(),
            k <= t.len(),
            forall|j: int| 0 <= j < k ==> !occurs_at(t@, s@, j),
        decreases t.len() - k,
    {
        if matches_at(t, k, s) {
            assert(occurs_at(t@, s@, k as int));
            return true;
        }
        k = k + 1;
    }
    false
}

/// The pieces `parts` written one after the other, `sep` between each two.
pub open spec fn join_seq(parts: Seq<Seq<char>>, sep: Seq<char>) -> Seq<char>
    decreases parts.len(),
{
    if parts.len() == 0 {
        Seq::empty()
    } else if parts.len() == 1 {
        parts[0]
    } else {
        join_seq(parts.drop_last(), sep) + sep + parts.last()
    }
}

pub fn append_vec(dst: &mut Vec<char>, src: &Vec<char>)
    ensures
        final(dst)@ == old(dst)@ + src@,
{
    let mut k: usize = 0;
    while k < src.len()
        invariant
            k <= src.len(),
            dst@ == old(dst)@ + src@.take(k as int),
        decreases src.len() - k,
    {
        dst.push(src[k]);
        k = k + 1;
        assert(dst@ =~= old(dst)@ + src@.take(k as int));
    }
    assert(src@.take(src@.len() as int) =~= src@);
}

pub fn join_vec(parts: &Vec<Vec<char>>, sep: &Vec<char>) -> (r: Vec<char>)
    ensures
        r@ == join_seq(views(parts@), sep@),
{
    let mut r: Vec<char> = Vec::new();
    let mut i: usize = 0;
    while i < parts.len()
        invariant
            i <= parts.len(),
            r@ == join_seq(views(parts@).take(i as int), sep@),
        decreases parts.len() - i,
    {
        let ghost pre = views(parts@).take(i as int);
        let ghost post = views(parts@).take(i + 1);
        assert(post.drop_last() =~= pre);
        if i > 0 {
            append_vec(&mut r, sep);
        }
        append_vec(&mut r, &parts[i]);
        if i == 0 {
            assert(r@ =~= post[0]);
        }
        i = i + 1;
    }
    assert(views(parts@).take(parts.len() as int) =~= views(parts@));
    r
}

/// The lexicographic order on texts, by code point, as `Ord` orders `String`s
/// (the byte order of UTF-8 is the code point order).
pub open spec fn lex_lt(a: Seq<char>, b: Seq<char>) -> bool
    decreases a.len(),
{
    if b.len() == 0 {
        false
    } else if a.len() == 0 {
        true
    } else if a[0] != b[0] {
        a[0] < b[0]
    } else {
        lex_lt(a.drop_first(), b.drop_first())
    }
}

pub proof fn lemma_lex_irreflexive(a: Seq<char>)
    ensures
        !lex_lt(a, a),
    decreases a.len(),
{
    if a.len() > 0 {
        lemma_lex_irreflexive(a.drop_first());
    }
}

pub proof fn lemma_lex_transitive(a: Seq<char>, b: Seq<char>, c: Seq<char>)
    requires
        lex_lt(a, b),
        lex_lt(b, c),
    ensures
        lex_lt(a, c),
    decreases a.len(),
{
    if a.len() > 0 && b.len() > 0 && c.len() > 0 && a[0] == b[0] && b[0] == c[0] {
        lemma_lex_transitive(a.drop_first(), b.drop_first(), c.drop_first());
    }
}

pub proof fn lemma_lex_total(a: Seq<char>, b: Seq<char>)
    requires
        a != b,
    ensures
        lex_lt(a, b) || lex_lt(b, a),
    decreases a.len(),
{
    if a.len() > 0 && b.len() > 0 && a[0] == b[0] {
        if a.drop_first() == b.drop_first() {
            assert(a =~= seq![a[0]] + a.drop_first());
            assert(b =~= seq![b[0]] + b.drop_first());
        }
        lemma_lex_total(a.drop_first(), b.drop_first());
    } else if a.len() == 0 && b.len() == 0 {
        assert(a =~= b);
    }
}

pub fn lex_less(a: &Vec<char>, b: &Vec<char>) -> (r: bool)
    ensures
        r == lex_lt(a@, b@),
{
    let mut i: usize = 0;
    assert(a@.skip(0) =~= a@);
    assert(b@.skip(0) =~= b@);
    while i < a.len() && i < b.len() && a[i] == b[i]
        invariant
            i <= a.len(),
            i <= b.len(),
            lex_lt(a@, b@) == lex_lt(a@.skip(i as int), b@.skip(i as int)),
        decreases a.len() - i,
    {
        assert(a@.skip(i as int).drop_first() =~= a@.skip(i + 1));
        assert(b@.skip(i as int).drop_first() =~= b@.skip(i + 1));
        i = i + 1;
    }
    if i == b.len() {
        false
    } else if i == a.len() {
        true
    } else {
        a[i] < b[i]
    }
}

/// Does `s` begin with `p`?
pub fn starts_with_vec(s: &Vec<char>, p: &Vec<char>) -> (r: bool)
    ensures
        r == (p@.len() <= s@.len() && s@.take(p@.len() as int) == p@),
{
    if p.len() > s.len() {
        return false;
    }
    let r = matches_at(s, 0, p);
    assert(s@.subrange(0, p@.len() as int) =~= s@.take(p@.len() as int));
    r
}


/// Do `a` and `b` hold the same characters?
pub fn vec_eq(a: &Vec<char>, b: &Vec<char>) -> (r: bool)
    ensures
        r == (a@ == b@),
{
    if a.len() != b.len() {
        return false;
    }
    let r = matches_at(a, 0, b);
    assert(a@.subrange(0, b@.len() as int) =~= a@);
    r
}

/// Every text of `r` comes before the next in the lexicographic order.
pub open spec fn strictly_sorted(r: Seq<Seq<char>>) -> bool {
    forall|i: int, j: int| 0 <= i < j < r.len() ==> lex_lt(#[trigger] r[i], #[trigger] r[j])
}

/// Two strictly sorted lists of the same texts are the same list.
pub proof fn lemma_sorted_unique(a: Seq<Seq<char>>, b: Seq<Seq<char>>)
    requires
        strictly_sorted(a),
        strictly_sorted(b),
        a.to_set() == b.to_set(),
    ensures
        a == b,
    decreases a.len(),
{
    if a.len() == 0 {
        if b.len() > 0 {
            assert(b.to_set().contains(b[0]));
        }
        assert(a =~= b);
    } else {
        assert(a.to_set().contains(a[0]));
        assert(b.len() > 0);
        assert(b.to_set().contains(b[0]));
        let ia = choose|k: int| 0 <= k < a.len() && a[k] == b[0];
        let ib = choose|k: int| 0 <= k < b.len() && b[k] == a[0];
        if a[0] != b[0] {
            lemma_lex_total(a[0], b[0]);
            if lex_lt(a[0], b[0]) {
                assert(ib > 0);
                assert(lex_lt(b[0], b[ib]));
                lemma_lex_transitive(a[0], b[0], a[0]);
                lemma_lex_irreflexive(a[0]);
            } else {
                assert(ia > 0);
                assert(lex_lt(a[0], a[ia]));
                lemma_lex_transitive(b[0], a[0], b[0]);
                lemma_lex_irreflexive(b[0]);
            }
        }
        let a1 = a.drop_first();
        let b1 = b.drop_first();
        assert forall|x: Seq<char>| a1.to_set().contains(x) implies b1.to_set().contains(x) by {
            let k = choose|k: int| 0 <= k < a1.len() && a1[k] == x;
            assert(a.to_set().contains(a[k + 1]));
            let m = choose|m: int| 0 <= m < b.len() && b[m] == x;
            if m == 0 {
                assert(lex_lt(a[0], a[k + 1]));
                lemma_lex_irreflexive(a[0]);
            }
            assert(b1[m - 1] == x);
        };
        assert forall|x: Seq<char>| b1.to_set().contains(x) implies a1.to_set().contains(x) by {
            let k = choose|k: int| 0 <= k < b1.len() && b1[k] == x;
            assert(b.to_set().contains(b[k + 1]));
            let m = choose|m: int| 0 <= m < a.len() && a[m] == x;
            if m == 0 {
                assert(lex_lt(b[0], b[k + 1]));
                lemma_lex_irreflexive(b[0]);
            }
            assert(a1[m - 1] == x);
        };
        assert(a1.to_set() =~= b1.to_set());
        lemma_sorted_unique(a1, b1);
        assert(a =~= seq![a[0]] + a1);
        assert(b =~= seq![b[0]] + b1);
    }
}

/// The texts of `v`, each once, in lexicographic order.
pub fn sorted_unique(v: &Vec<Vec<char>>) -> (r: Vec<Vec<char>>)
    ensures
        strictly_sorted(views(r@)),
        views(r@).to_set() == views(v@).to_set(),
{
    let mut r: Vec<Vec<char>> = Vec::new();
    let mut i: usize = 0;
    while i < v.len()
        invariant
            i <= v.len(),
            strictly_sorted(views(r@)),
            views(r@).to_set() == views(v@).take(i as int).to_set(),
        decreases v.len() - i,
    {
        let x = &v[i];
        let ghost rv = views(r@);
        let mut pos: usize = 0;
        while pos < r.len() && lex_less(&r[pos], x)
            invariant
                pos <= r.len(),
                rv == views(r@),
                forall|k: int| 0 <= k < pos ==> lex_lt(#[trigger] rv[k], x@),
            decreases r.len() - pos,
        {
            pos = pos + 1;
        }
        assert(views(v@).take(i + 1) =~= views(v@).take(i as int).push(x@));
        if pos < r.len() && vec_eq(&r[pos], x) {
            assert(rv[pos as int] == x@);
            let ghost pre = views(v@).take(i as int);
            let ghost post = views(v@).take(i + 1);
            assert forall|y: Seq<char>| #[trigger] rv.to_set().contains(y) <==> post.to_set().contains(y) by {
                if post.to_set().contains(y) {
                    assert(post.contains(y));
                    let m = choose|m: int| 0 <= m < post.len() && post[m] == y;
                    if m == i {
                        assert(rv.contains(y));
                    } else {
                        assert(pre[m] == y);
                        assert(pre.contains(y));
                        assert(pre.to_set().contains(y));
                    }
                }
                if rv.to_set().contains(y) {
                    assert(pre.to_set().contains(y));
                    assert(pre.contains(y));
                    let m = choose|m: int| 0 <= m < pre.len() && pre[m] == y;
                    assert(post[m] == y);
                    assert(post.contains(y));
                }
            };
            assert(views(r@).to_set() =~= views(v@).take(i + 1).to_set());
        } else {
            proof {
                if pos < r.len() {
                    lemma_lex_total(rv[pos as int], x@);
                }
            }
            r.insert(pos, x.clone());
            let ghost nv = views(r@);
            assert(nv =~= rv.insert(pos as int, x@));
            assert forall|a: int, b: int| 0 <= a < b < nv.len() implies lex_lt(
                #[trigger] nv[a],
                #[trigger] nv[b],
            ) by {
                if a < pos && b == pos {
                } else if a < pos && b > pos {
                    assert(lex_lt(rv[a], rv[b - 1]));
                } else if a == pos && b > pos {
                    if b - 1 > pos {
                        assert(lex_lt(rv[pos as int], rv[b - 1]));
                        lemma_lex_transitive(x@, rv[pos as int], rv[b - 1]);
                    }
                } else if a > pos {
                    assert(lex_lt(rv[a - 1], rv[b - 1]));
                }
            };
            let ghost pre = views(v@).take(i as int);
            let ghost post = views(v@).take(i + 1);
            assert forall|y: Seq<char>| #[trigger] nv.to_set().contains(y) <==> post.to_set().contains(y) by {
                if nv.to_set().contains(y) {
                    assert(nv.contains(y));
                    let k = choose|k: int| 0 <= k < nv.len() && nv[k] == y;
                    if k != pos {
                        let kk = if k < pos { k } else { k - 1 };
                        assert(rv[kk] == y);
                        assert(rv.contains(y));
                        assert(rv.to_set().contains(y));
                        assert(pre.to_set().contains(y));
                        assert(pre.contains(y));
                        let m = choose|m: int| 0 <= m < pre.len() && pre[m] == y;
                        assert(post[m] == y);
                    } else {
                        assert(post[i as int] == y);
                    }
                    assert(post.contains(y));
                }
                if post.to_set().contains(y) {
                    assert(post.contains(y));
                    let m = choose|m: int| 0 <= m < post.len() && post[m] == y;
                    if m == i {
                        assert(nv[pos as int] == y);
                    } else {
                        assert(pre[m] == y);
                        assert(pre.contains(y));
                        assert(pre.to_set().contains(y));
                        assert(rv.to_set().contains(y));
                        assert(rv.contains(y));
                        let k = choose|k: int| 0 <= k < rv.len() && rv[k] == y;
                        if k < pos {
                            assert(nv[k] == y);
                        } else {
                            assert(nv[k + 1] == y);
                        }
                    }
                    assert(nv.contains(y));
                }
            };
            assert(nv.to_set() =~= views(v@).take(i + 1).to_set());
        }
        i = i + 1;
    }
    assert(views(v@).take(v.len() as int) =~= views(v@));
    r
}


/// The texts of the finite set `s`, each once, in lexicographic order.
pub open spec fn sorted_list(s: Set<Seq<char>>) -> Seq<Seq<char>> {
    choose|r: Seq<Seq<char>>| strictly_sorted(r) && r.to_set() == s
}

/// A strictly sorted list of the texts of `s` is `sorted_list(s)`.
pub proof fn lemma_sorted_list(s: Set<Seq<char>>, r: Seq<Seq<char>>)
    requires
        strictly_sorted(r),
        r.to_set() == s,
    ensures
        sorted_list(s) == r,
{
    let w = sorted_list(s);
    lemma_sorted_unique(w, r);
}

/// Where `x` stands, or would stand, in the strictly sorted `keys`: the number
/// of keys before it, and whether it is there.
pub fn search_sorted(keys: &Vec<Vec<char>>, x: &Vec<char>) -> (r: (usize, bool))
    requires
        strictly_sorted(views(keys@)),
    ensures
        r.0 <= keys@.len(),
        forall|t: int| 0 <= t < r.0 ==> lex_lt(#[trigger] keys@[t]@, x@),
        forall|t: int| r.0 <= t < keys@.len() ==> !lex_lt(#[trigger] keys@[t]@, x@),
        r.1 == views(keys@).contains(x@),
        r.1 ==> r.0 < keys@.len() && keys@[r.0 as int]@ == x@,
{
    let ghost kv = views(keys@);
    let mut lo: usize = 0;
    let mut hi: usize = keys.len();
    while lo < hi
        invariant
            lo <= hi <= keys@.len(),
            kv == views(keys@),
            strictly_sorted(kv),
            forall|t: int| 0 <= t < lo ==> lex_lt(#[trigger] keys@[t]@, x@),
            forall|t: int| hi <= t < keys@.len() ==> !lex_lt(#[trigger] keys@[t]@, x@),
        decreases hi - lo,
    {
        let mid = lo + (hi - lo) / 2;
        if lex_less(&keys[mid], x) {
            assert forall|t: int| 0 <= t < mid + 1 implies lex_lt(#[trigger] keys@[t]@, x@) by {
                if t < mid {
                    assert(lex_lt(kv[t], kv[mid as int]));
                    lemma_lex_transitive(keys@[t]@, keys@[mid as int]@, x@);
                }
            };
            lo = mid + 1;
        } else {
            assert forall|t: int| mid <= t < keys@.len() implies !lex_lt(#[trigger] keys@[t]@, x@) by {
                if t > mid {
                    assert(lex_lt(kv[mid as int], kv[t]));
                    if lex_lt(keys@[t]@, x@) {
                        lemma_lex_transitive(keys@[mid as int]@, keys@[t]@, x@);
                    }
                }
            };
            hi = mid;
        }
    }
    let found = lo < keys.len() && vec_eq(&keys[lo], x);
    proof {
        if kv.contains(x@) {
            let m = choose|m: int| 0 <= m < kv.len() && kv[m] == x@;
            lemma_lex_irreflexive(x@);
            assert(keys@[m]@ == x@);
            if m > lo {
                assert(lex_lt(kv[lo as int], kv[m]));
            }
            assert(m == lo);
        }
    }
    if found {
        assert(kv[lo as int] == x@);
    }
    (lo, found)
}


proof fn lemma_least_text(s: Set<Seq<char>>) -> (m: Seq<char>)
    requires
        s.finite(),
        s.len() > 0,
    ensures
        s.contains(m),
        forall|x: Seq<char>| #[trigger] s.contains(x) && x != m ==> lex_lt(m, x),
    decreases s.len(),
{
    let x = s.choose();
    let rest = s.remove(x);
    vstd::set::axiom_set_remove_len(s, x);
    if rest.len() == 0 {
        assert forall|y: Seq<char>| #[trigger] s.contains(y) && y != x implies lex_lt(x, y) by {
            assert(rest.contains(y));
        };
        x
    } else {
        let m = lemma_least_text(rest);
        if lex_lt(x, m) {
            assert forall|y: Seq<char>| #[trigger] s.contains(y) && y != x implies lex_lt(x, y) by {
                if y != m {
                    assert(rest.contains(y));
                    lemma_lex_transitive(x, m, y);
                }
            };
            x
        } else {
            lemma_lex_total(x, m);
            assert forall|y: Seq<char>| #[trigger] s.contains(y) && y != m implies lex_lt(m, y) by {
                if y != x {
                    assert(rest.contains(y));
                }
            };
            m
        }
    }
}

/// Every finite set of texts has a strictly sorted list: `sorted_list` is one.
pub proof fn lemma_sorted_list_exists(s: Set<Seq<char>>)
    requires
        s.finite(),
    ensures
        strictly_sorted(sorted_list(s)),
        sorted_list(s).to_set() == s,
    decreases s.len(),
{
    if s.len() == 0 {
        let w = Seq::<Seq<char>>::empty();
        assert(w.to_set() =~= s) by {
            assert forall|x: Seq<char>| !s.contains(x) by {
                if s.contains(x) {
                    vstd::set::axiom_set_remove_len(s, x);
                }
            };
        };
        assert(strictly_sorted(w));
    } else {
        let m = lemma_least_text(s);
        let rest = s.remove(m);
        vstd::set::axiom_set_remove_len(s, m);
        lemma_sorted_list_exists(rest);
        let r = sorted_list(rest);
        let w = seq![m] + r;
        assert forall|i: int, j: int| 0 <= i < j < w.len() implies lex_lt(#[trigger] w[i], #[trigger] w[j]) by {
            if i == 0 {
                assert(w[j] == r[j - 1]);
                assert(r.to_set().contains(r[j - 1]));
                assert(rest.contains(r[j - 1]));
            } else {
                assert(lex_lt(r[i - 1], r[j - 1]));
            }
        };
        assert forall|x: Seq<char>| #[trigger] w.to_set().contains(x) <==> s.contains(x) by {
            if s.contains(x) {
                if x == m {
                    assert(w[0] == x);
                } else {
                    assert(rest.contains(x));
                    assert(r.to_set().contains(x));
                    let k = choose|k: int| 0 <= k < r.len() && r[k] == x;
                    assert(w[k + 1] == x);
                }
            }
            if w.to_set().contains(x) {
                let k = choose|k: int| 0 <= k < w.len() && w[k] == x;
                if k > 0 {
                    assert(r[k - 1] == x);
                    assert(r.to_set().contains(x));
                }
            }
        };
        assert(w.to_set() =~= s);
    }
}


/// No character of `s` is `c`.
pub open spec fn free_of(s: Seq<char>, c: char) -> bool {
    forall|i: int| 0 <= i < s.len() ==> s[i] != c
}

/// The digit character of a value below ten.
pub open spec fn digit_char(d: nat) -> char {
    (('0' as nat) + d) as char
}

/// The decimal digits of `n`, most significant first, with no leading zero.
pub open spec fn decimal(n: nat) -> Seq<char>
    decreases n,
{
    if n < 10 {
        seq![digit_char(n)]
    } else {
        decimal(n / 10).push(digit_char(n % 10))
    }
}

proof fn lemma_digit_char(d: nat)
    requires
        d < 10,
    ensures
        is_digit(digit_char(d)),
        digit_val(digit_char(d)) == d,
{
    assert((('0' as nat) + d) as char as int == ('0' as int) + d);
}

proof fn lemma_decimal_digits(n: nat)
    ensures
        decimal(n).len() > 0,
        all_digits(decimal(n)),
        digits_value(decimal(n)) == n,
    decreases n,
{
    if n < 10 {
        lemma_digit_char(n);
        let d = decimal(n);
        assert(d.drop_last() =~= Seq::<char>::empty());
        assert(digits_value(d) == digits_value(d.drop_last()) * 10 + digit_val(d.last()));
    } else {
        lemma_decimal_digits(n / 10);
        lemma_digit_char(n % 10);
        let d = decimal(n);
        assert(d.drop_last() =~= decimal(n / 10));
        assert(digits_value(d) == digits_value(decimal(n / 10)) * 10 + digit_val(digit_char(n % 10)));
        assert(n == (n / 10) * 10 + n % 10);
        assert forall|i: int| 0 <= i < d.len() implies is_digit(#[trigger] d[i]) by {
            if i < d.len() - 1 {
                assert(d[i] == decimal(n / 10)[i]);
            }
        };
    }
}

/// The decimal digits of a number read back as that number.
pub proof fn lemma_parse_decimal(n: u64)
    ensures
        parse_u64_spec(decimal(n as nat)) == Some(n),
        free_of(decimal(n as nat), ';'),
        free_of(decimal(n as nat), '"'),
{
    lemma_decimal_digits(n as nat);
    let d = decimal(n as nat);
    assert(is_digit(d[0]));
    assert(unsigned_digits(d) == d);
    assert forall|i: int| 0 <= i < d.len() implies d[i] != ';' && d[i] != '"' by {
        assert(is_digit(d[i]));
    };
}

/// Joining the first piece on: `join_seq` read from the front.
pub proof fn lemma_join_front(parts: Seq<Seq<char>>, sep: Seq<char>)
    requires
        parts.len() >= 2,
    ensures
        join_seq(parts, sep) == parts[0] + sep + join_seq(parts.drop_first(), sep),
    decreases parts.len(),
{
    let a = parts.drop_last();
    let b = parts.drop_first();
    assert(join_seq(parts, sep) == join_seq(a, sep) + sep + parts.last());
    if parts.len() == 2 {
        assert(a =~= seq![parts[0]]);
        assert(b =~= seq![parts[1]]);
        assert(join_seq(a, sep) == a[0]);
        assert(join_seq(b, sep) == b[0]);
        assert(join_seq(parts, sep) =~= parts[0] + sep + join_seq(b, sep));
    } else {
        lemma_join_front(a, sep);
        assert(a.drop_first() =~= b.drop_last());
        assert(a[0] == parts[0]);
        assert(b.last() == parts.last());
        assert(join_seq(b, sep) == join_seq(b.drop_last(), sep) + sep + b.last());
        assert(join_seq(parts, sep) =~= parts[0] + sep + join_seq(b, sep));
    }
}

/// A character that occurs in no piece and not in the separator does not
/// occur in the joined text.
pub proof fn lemma_join_free_of(parts: Seq<Seq<char>>, sep: Seq<char>, c: char)
    requires
        free_of(sep, c),
        forall|k: int| 0 <= k < parts.len() ==> free_of(#[trigger] parts[k], c),
    ensures
        free_of(join_seq(parts, sep), c),
    decreases parts.len(),
{
    if parts.len() >= 2 {
        lemma_join_free_of(parts.drop_last(), sep, c);
        assert(free_of(parts[parts.len() - 1], c));
        let a = join_seq(parts.drop_last(), sep);
        let j = a + sep + parts.last();
        assert forall|i: int| 0 <= i < j.len() implies j[i] != c by {
            if i < a.len() {
                assert(j[i] == a[i]);
            } else if i < a.len() + sep.len() {
                assert(j[i] == sep[i - a.len()]);
            } else {
                assert(j[i] == parts.last()[i - a.len() - sep.len()]);
            }
        };
    } else if parts.len() == 1 {
        assert(free_of(parts[0], c));
    }
}

proof fn lemma_split_last_piece(f: Seq<char>, sep: Seq<char>, cur: Seq<char>)
    requires
        sep.len() >= 2,
        free_of(f, sep[1]),
    ensures
        split_acc(f, sep, cur) == seq![cur + f],
    decreases f.len(),
{
    if f.len() >= sep.len() {
        assert(f.take(sep.len() as int)[1] == f[1]);
        assert(f.take(sep.len() as int) != sep);
        lemma_split_last_piece(f.skip(1), sep, cur.push(f[0]));
        assert(cur.push(f[0]) + f.skip(1) =~= cur + f);
    }
}

proof fn lemma_split_first_piece(f: Seq<char>, sep: Seq<char>, rest: Seq<char>, cur: Seq<char>)
    requires
        sep.len() >= 2,
        sep[0] != sep[1],
        free_of(f, sep[1]),
    ensures
        split_acc(f + sep + rest, sep, cur) == seq![cur + f] + split_acc(rest, sep, Seq::empty()),
    decreases f.len(),
{
    let s = f + sep + rest;
    if f.len() == 0 {
        assert(s.take(sep.len() as int) =~= sep);
        assert(s.skip(sep.len() as int) =~= rest);
        assert(cur + f =~= cur);
    } else {
        if f.len() >= 2 {
            assert(s[1] == f[1]);
        } else {
            assert(s[1] == sep[0]);
        }
        assert(s.take(sep.len() as int)[1] == s[1]);
        assert(s.take(sep.len() as int) != sep);
        assert(s.skip(1) =~= f.skip(1) + sep + rest);
        lemma_split_first_piece(f.skip(1), sep, rest, cur.push(f[0]));
        assert(cur.push(f[0]) + f.skip(1) =~= cur + f);
    }
}

/// Splitting joined pieces gives the pieces back, where no piece holds the
/// second character of the separator (and the separator begins with
/// another character).
pub proof fn lemma_split_join(parts: Seq<Seq<char>>, sep: Seq<char>)
    requires
        parts.len() >= 1,
        sep.len() >= 2,
        sep[0] != sep[1],
        forall|k: int| 0 <= k < parts.len() ==> free_of(#[trigger] parts[k], sep[1]),
    ensures
        split_seq(join_seq(parts, sep), sep) == parts,
{
    lemma_split_join_acc(parts, sep, Seq::empty());
    assert(Seq::<char>::empty() + parts[0] =~= parts[0]);
    assert(seq![parts[0]] + parts.drop_first() =~= parts);
}

proof fn lemma_split_join_acc(parts: Seq<Seq<char>>, sep: Seq<char>, cur: Seq<char>)
    requires
        parts.len() >= 1,
        sep.len() >= 2,
        sep[0] != sep[1],
        forall|k: int| 0 <= k < parts.len() ==> free_of(#[trigger] parts[k], sep[1]),
    ensures
        split_acc(join_seq(parts, sep), sep, cur) == seq![cur + parts[0]] + parts.drop_first(),
    decreases parts.len(),
{
    assert(free_of(parts[0], sep[1]));
    if parts.len() == 1 {
        lemma_split_last_piece(parts[0], sep, cur);
        assert(seq![cur + parts[0]] + parts.drop_first() =~= seq![cur + parts[0]]);
    } else {
        lemma_join_front(parts, sep);
        let tail = parts.drop_first();
        lemma_split_first_piece(parts[0], sep, join_seq(tail, sep), cur);
        assert forall|k: int| 0 <= k < tail.len() implies free_of(#[trigger] tail[k], sep[1]) by {
            assert(tail[k] == parts[k + 1]);
        };
        lemma_split_join_acc(tail, sep, Seq::empty());
        assert(Seq::<char>::empty() + tail[0] =~= tail[0]);
        assert(seq![tail[0]] + tail.drop_first() =~= tail);
    }
}

/// Removing a quote from each end of a text that holds no quote gives the text.
pub proof fn lemma_trim_quoted(body: Seq<char>, q: char)
    requires
        free_of(body, q),
    ensures
        trim_char(seq![q] + body + seq![q], q) == body,
{
    let s = seq![q] + body + seq![q];
    let b = body + seq![q];
    assert(s.drop_first() =~= b);
    assert(s[0] == q);
    assert(trim_start_char(s, q) == trim_start_char(b, q));
    assert(b.drop_last() =~= body);
    if body.len() == 0 {
        assert(b =~= seq![q]);
        assert(b.drop_first() =~= Seq::<char>::empty());
        assert(trim_start_char(b, q) == trim_start_char(Seq::<char>::empty(), q));
        assert(trim_start_char(Seq::<char>::empty(), q) == Seq::<char>::empty());
        assert(trim_end_char(Seq::<char>::empty(), q) == Seq::<char>::empty());
        assert(body =~= Seq::<char>::empty());
    } else {
        assert(b[0] == body[0]);
        assert(body[0] != q);
        assert(trim_start_char(b, q) == b);
        assert(b.last() == q);
        assert(trim_end_char(b, q) == trim_end_char(body, q));
        assert(body.last() == body[body.len() - 1]);
        assert(body.last() != q);
        assert(trim_end_char(body, q) == body);
    }
}


/// No character of `s` is whitespace.
pub open spec fn no_ws(s: Seq<char>) -> bool {
    forall|i: int| 0 <= i < s.len() ==> !is_ws(#[trigger] s[i])
}

proof fn lemma_tokens_last_word(w: Seq<char>, cur: Seq<char>)
    requires
        no_ws(w),
        (cur + w).len() > 0,
    ensures
        tokens_acc(w, cur) == seq![cur + w],
    decreases w.len(),
{
    if w.len() == 0 {
        assert(cur + w =~= cur);
    } else {
        assert(!is_ws(w[0]));
        assert(no_ws(w.drop_first()));
        lemma_tokens_last_word(w.drop_first(), cur.push(w[0]));
        assert(cur.push(w[0]) + w.drop_first() =~= cur + w);
    }
}

proof fn lemma_tokens_first_word(w: Seq<char>, sep: char, rest: Seq<char>, cur: Seq<char>)
    requires
        no_ws(w),
        is_ws(sep),
        (cur + w).len() > 0,
    ensures
        tokens_acc(w + seq![sep] + rest, cur) == seq![cur + w] + tokens_acc(rest, Seq::empty()),
    decreases w.len(),
{
    let s = w + seq![sep] + rest;
    if w.len() == 0 {
        assert(s[0] == sep);
        assert(s.drop_first() =~= rest);
        assert(cur + w =~= cur);
    } else {
        assert(s[0] == w[0]);
        assert(!is_ws(w[0]));
        assert(s.drop_first() =~= w.drop_first() + seq![sep] + rest);
        assert(no_ws(w.drop_first()));
        lemma_tokens_first_word(w.drop_first(), sep, rest, cur.push(w[0]));
        assert(cur.push(w[0]) + w.drop_first() =~= cur + w);
    }
}

proof fn lemma_tokens_join_acc(parts: Seq<Seq<char>>, sep: char, cur: Seq<char>)
    requires
        parts.len() >= 1,
        is_ws(sep),
        forall|k: int| 0 <= k < parts.len() ==> no_ws(#[trigger] parts[k]) && parts[k].len() > 0,
    ensures
        tokens_acc(join_seq(parts, seq![sep]), cur) == seq![cur + parts[0]] + parts.drop_first(),
    decreases parts.len(),
{
    assert(no_ws(parts[0]) && parts[0].len() > 0);
    if parts.len() == 1 {
        lemma_tokens_last_word(parts[0], cur);
        assert(seq![cur + parts[0]] + parts.drop_first() =~= seq![cur + parts[0]]);
    } else {
        lemma_join_front(parts, seq![sep]);
        let tail = parts.drop_first();
        lemma_tokens_first_word(parts[0], sep, join_seq(tail, seq![sep]), cur);
        assert forall|k: int| 0 <= k < tail.len() implies no_ws(#[trigger] tail[k]) && tail[k].len() > 0 by {
            assert(tail[k] == parts[k + 1]);
        };
        lemma_tokens_join_acc(tail, sep, Seq::empty());
        assert(Seq::<char>::empty() + tail[0] =~= tail[0]);
        assert(seq![tail[0]] + tail.drop_first() =~= tail);
    }
}

/// The words joined by one whitespace character each are read back as those words.
pub proof fn lemma_tokens_join(parts: Seq<Seq<char>>, sep: char)
    requires
        parts.len() >= 1,
        is_ws(sep),
        forall|k: int| 0 <= k < parts.len() ==> no_ws(#[trigger] parts[k]) && parts[k].len() > 0,
    ensures
        ws_tokens(join_seq(parts, seq![sep])) == parts,
{
    lemma_tokens_join_acc(parts, sep, Seq::empty());
    assert(Seq::<char>::empty() + parts[0] =~= parts[0]);
    assert(seq![parts[0]] + parts.drop_first() =~= parts);
}

/// A decimal number holds no whitespace.
pub proof fn lemma_decimal_no_ws(n: nat)
    ensures
        no_ws(decimal(n)),
        decimal(n).len() > 0,
{
    lemma_decimal_digits(n);
    let d = decimal(n);
    assert forall|i: int| 0 <= i < d.len() implies !is_ws(#[trigger] d[i]) by {
        assert(is_digit(d[i]));
    };
}


/// The lines `ls`, each followed by a line feed.
pub open spec fn terminated(ls: Seq<Seq<char>>) -> Seq<char>
    decreases ls.len(),
{
    if ls.len() == 0 {
        Seq::empty()
    } else {
        ls[0] + seq!['\n'] + terminated(ls.drop_first())
    }
}

/// How many times `c` occurs in `s`.
pub open spec fn count_char(s: Seq<char>, c: char) -> nat
    decreases s.len(),
{
    if s.len() == 0 {
        0
    } else {
        (if s[0] == c { 1nat } else { 0nat }) + count_char(s.drop_first(), c)
    }
}

proof fn lemma_lines_first(l: Seq<char>, rest: Seq<char>, cur: Seq<char>)
    requires
        free_of(l, '\n'),
    ensures
        lines_acc(l + seq!['\n'] + rest, cur) == seq![strip_cr(cur + l)] + lines_acc(rest, Seq::empty()),
    decreases l.len(),
{
    let s = l + seq!['\n'] + rest;
    if l.len() == 0 {
        assert(s[0] == '\n');
        assert(s.drop_first() =~= rest);
        assert(cur + l =~= cur);
    } else {
        assert(s[0] == l[0]);
        assert(s.drop_first() =~= l.drop_first() + seq!['\n'] + rest);
        lemma_lines_first(l.drop_first(), rest, cur.push(l[0]));
        assert(cur.push(l[0]) + l.drop_first() =~= cur + l);
    }
}

/// Lines each followed by a line feed read back as those lines, where no
/// line holds a line feed or ends with a carriage return: a final line feed
/// starts no further, empty line.
pub proof fn lemma_lines_of_terminated(ls: Seq<Seq<char>>)
    requires
        forall|k: int| 0 <= k < ls.len() ==> free_of(#[trigger] ls[k], '\n') && !(ls[k].len() > 0 && ls[k].last() == '\r'),
    ensures
        lines_of(terminated(ls)) == ls,
    decreases ls.len(),
{
    if ls.len() == 0 {
        assert(lines_of(Seq::<char>::empty()) == nonempty_piece(Seq::<char>::empty()));
        assert(ls =~= Seq::<Seq<char>>::empty());
    } else {
        let tail = ls.drop_first();
        assert(free_of(ls[0], '\n') && !(ls[0].len() > 0 && ls[0].last() == '\r'));
        lemma_lines_first(ls[0], terminated(tail), Seq::empty());
        assert(Seq::<char>::empty() + ls[0] =~= ls[0]);
        assert(strip_cr(ls[0]) == ls[0]);
        assert forall|k: int| 0 <= k < tail.len() implies free_of(#[trigger] tail[k], '\n') && !(tail[k].len() > 0 && tail[k].last() == '\r') by {
            assert(tail[k] == ls[k + 1]);
        };
        lemma_lines_of_terminated(tail);
        assert(seq![ls[0]] + tail =~= ls);
    }
}

proof fn lemma_lines_count_acc(s: Seq<char>, cur: Seq<char>)
    requires
        s.len() > 0,
        s.last() == '\n',
    ensures
        lines_acc(s, cur).len() == count_char(s, '\n'),
    decreases s.len(),
{
    if s[0] == '\n' {
        if s.len() == 1 {
            assert(s.drop_first() =~= Seq::<char>::empty());
            assert(lines_acc(Seq::<char>::empty(), Seq::empty()) == nonempty_piece(Seq::<char>::empty()));
            assert(count_char(Seq::<char>::empty(), '\n') == 0);
        } else {
            assert(s.drop_first().last() == s.last());
            lemma_lines_count_acc(s.drop_first(), Seq::empty());
        }
    } else {
        assert(s.len() >= 2);
        assert(s.drop_first().last() == s.last());
        lemma_lines_count_acc(s.drop_first(), cur.push(s[0]));
    }
}

/// A text that ends with a line feed has exactly as many lines as line feeds.
pub proof fn lemma_lines_count(s: Seq<char>)
    requires
        s.len() > 0,
        s.last() == '\n',
    ensures
        lines_of(s).len() == count_char(s, '\n'),
{
    lemma_lines_count_acc(s, Seq::empty());
}


/// The first word read after a word already begun starts as that word does.
pub proof fn lemma_first_token_start(s: Seq<char>, cur: Seq<char>)
    requires
        cur.len() > 0,
    ensures
        tokens_acc(s, cur).len() > 0,
        tokens_acc(s, cur)[0].len() > 0,
        tokens_acc(s, cur)[0][0] == cur[0],
    decreases s.len(),
{
    if s.len() == 0 {
    } else if is_ws(s[0]) {
        assert((nonempty_piece(cur) + tokens_acc(s.drop_first(), Seq::empty()))[0] == cur);
    } else {
        lemma_first_token_start(s.drop_first(), cur.push(s[0]));
    }
}

} // verus!
