//! Text: searching, cutting and composing strings.

use vstd::prelude::*;

use crate::sequences::{first, lemma_first_is, split};

verus! {

/// Whether `s` begins with `prefix`.
pub open spec fn begins<T>(s: Seq<T>, prefix: Seq<T>) -> bool {
    prefix.len() <= s.len() && s.take(prefix.len() as int) == prefix
}

/// Whether `s` ends with `suffix`.
pub open spec fn ends<T>(s: Seq<T>, suffix: Seq<T>) -> bool {
    suffix.len() <= s.len() && s.skip(s.len() - suffix.len()) == suffix
}

/// What is left of `s` without a leading `prefix`.
pub open spec fn without_prefix(s: Seq<char>, prefix: Seq<char>) -> Option<Seq<char>> {
    if begins(s, prefix) {
        Some(s.skip(prefix.len() as int))
    } else {
        None
    }
}

/// `s` without one trailing `suffix`, where it ends in one.
pub open spec fn cut_suffix(s: Seq<char>, suffix: Seq<char>) -> Seq<char> {
    if ends(s, suffix) {
        s.take(s.len() - suffix.len())
    } else {
        s
    }
}

/// Whether `word` stands at position `i` of `s`.
pub open spec fn stands_at(s: Seq<char>, word: Seq<char>, i: int) -> bool {
    0 <= i <= s.len() - word.len() && s.subrange(i, i + word.len()) == word
}

/// Whether `word` stands somewhere in `s`.
pub open spec fn holds_word(s: Seq<char>, word: Seq<char>) -> bool {
    exists|i: int| stands_at(s, word, i)
}

/// The parts of `s` before and after the first `c`.
pub open spec fn halves(s: Seq<char>, c: char) -> Option<(Seq<char>, Seq<char>)> {
    let i = first(s, c);
    if i == s.len() {
        None
    } else {
        Some((s.take(i), s.skip(i + 1)))
    }
}

/// `s` without the longest run at its beginning whose characters all satisfy `f`.
pub open spec fn drop_leading(s: Seq<char>, f: spec_fn(char) -> bool) -> Seq<char>
    decreases s.len(),
{
    if s.len() > 0 && f(s[0]) {
        drop_leading(s.drop_first(), f)
    } else {
        s
    }
}

/// `s` without the longest run at its end whose characters all satisfy `f`.
pub open spec fn drop_trailing(s: Seq<char>, f: spec_fn(char) -> bool) -> Seq<char>
    decreases s.len(),
{
    if s.len() > 0 && f(s.last()) {
        drop_trailing(s.drop_last(), f)
    } else {
        s
    }
}

/// The characters with the Unicode property `White_Space`.
pub open spec fn white(c: char) -> bool {
    ||| '\u{9}' <= c <= '\u{d}'
    ||| c == ' '
    ||| c == '\u{85}'
    ||| c == '\u{a0}'
    ||| c == '\u{1680}'
    ||| '\u{2000}' <= c <= '\u{200a}'
    ||| c == '\u{2028}'
    ||| c == '\u{2029}'
    ||| c == '\u{202f}'
    ||| c == '\u{205f}'
    ||| c == '\u{3000}'
}

/// `s` without white space around it.
pub open spec fn trimmed(s: Seq<char>) -> Seq<char> {
    drop_trailing(drop_leading(s, |c: char| white(c)), |c: char| white(c))
}

/// `s` without slashes before it.
pub open spec fn no_leading_slash(s: Seq<char>) -> Seq<char> {
    drop_leading(s, |c: char| c == '/')
}

/// `s` without slashes around it.
pub open spec fn no_outer_slash(s: Seq<char>) -> Seq<char> {
    drop_trailing(no_leading_slash(s), |c: char| c == '/')
}

/// A line without the carriage return of a line break.
pub open spec fn without_return(s: Seq<char>) -> Seq<char> {
    if s.len() > 0 && s.last() == '\r' {
        s.drop_last()
    } else {
        s
    }
}

/// The lines of `s`. A line break ends a line: there is no empty line after the last one.
pub open spec fn text_lines(s: Seq<char>) -> Seq<Seq<char>> {
    let pieces = split(s, '\n');
    let broken = pieces.drop_last().map_values(|l: Seq<char>| without_return(l));
    if pieces.last().len() == 0 {
        broken
    } else {
        broken.push(pieces.last())
    }
}

/// The character that writes a digit.
pub open spec fn digit(d: int) -> char {
    if d == 0 {
        '0'
    } else if d == 1 {
        '1'
    } else if d == 2 {
        '2'
    } else if d == 3 {
        '3'
    } else if d == 4 {
        '4'
    } else if d == 5 {
        '5'
    } else if d == 6 {
        '6'
    } else if d == 7 {
        '7'
    } else if d == 8 {
        '8'
    } else {
        '9'
    }
}

/// The decimal notation of `n`.
pub open spec fn decimal_text(n: int) -> Seq<char>
    decreases n,
{
    if n < 10 {
        seq![digit(n)]
    } else {
        decimal_text(n / 10).push(digit(n % 10))
    }
}

/// `s` filled up with spaces to at least `width` characters.
pub open spec fn padded(s: Seq<char>, width: nat) -> Seq<char> {
    if s.len() < width {
        s + Seq::new((width - s.len()) as nat, |i: int| ' ')
    } else {
        s
    }
}

/// The strings as sequences of characters.
pub open spec fn texts(s: Seq<String>) -> Seq<Seq<char>> {
    s.map_values(|t: String| t@)
}

pub proof fn lemma_drop_leading(s: Seq<char>, f: spec_fn(char) -> bool, i: int)
    requires
        0 <= i <= s.len(),
        forall|j: int| 0 <= j < i ==> f(#[trigger] s[j]),
        i < s.len() ==> !f(s[i]),
    ensures
        drop_leading(s, f) == s.skip(i),
    decreases i,
{
    if i > 0 {
        assert(f(s[0]));
        let t = s.drop_first();
        assert forall|j: int| 0 <= j < i - 1 implies f(#[trigger] t[j]) by {
            assert(t[j] == s[j + 1]);
        }
        lemma_drop_leading(t, f, i - 1);
        assert(t.skip(i - 1) =~= s.skip(i));
    } else {
        assert(s.skip(0) =~= s);
    }
}

pub proof fn lemma_drop_trailing(s: Seq<char>, f: spec_fn(char) -> bool, i: int)
    requires
        0 <= i <= s.len(),
        forall|j: int| i <= j < s.len() ==> f(#[trigger] s[j]),
        i > 0 ==> !f(s[i - 1]),
    ensures
        drop_trailing(s, f) == s.take(i),
    decreases s.len(),
{
    if i < s.len() {
        assert(f(s[s.len() - 1]));
        let t = s.drop_last();
        lemma_drop_trailing(t, f, i);
        assert(t.take(i) =~= s.take(i));
    } else {
        assert(s.take(i) =~= s);
    }
}

/// Different numbers are written differently.
pub proof fn law_decimal_injective(m: int, n: int)
    requires
        m >= 0,
        n >= 0,
        decimal_text(m) == decimal_text(n),
    ensures
        m == n,
    decreases m,
{
    lemma_decimal_len(m);
    lemma_decimal_len(n);
    if m < 10 && n < 10 {
        assert(decimal_text(m)[0] == digit(m));
        assert(decimal_text(n)[0] == digit(n));
    } else if m >= 10 && n >= 10 {
        assert(decimal_text(m).drop_last() =~= decimal_text(m / 10));
        assert(decimal_text(n).drop_last() =~= decimal_text(n / 10));
        assert(decimal_text(m).last() == digit(m % 10));
        assert(decimal_text(n).last() == digit(n % 10));
        law_decimal_injective(m / 10, n / 10);
    }
}

proof fn lemma_decimal_len(n: int)
    requires
        n >= 0,
    ensures
        decimal_text(n).len() >= 1,
        n >= 10 ==> decimal_text(n).len() >= 2,
    decreases n,
{
    if n >= 10 {
        lemma_decimal_len(n / 10);
    }
}

/// The characters of `s`.
pub fn chars(s: &str) -> (r: Vec<char>)
    ensures
        r@ == s@,
{
    let mut r: Vec<char> = Vec::new();
    for c in it: s.chars()
        invariant
            it.seq() == s@,
            r@ == s@.take(it.index()),
    {
        r.push(c);
        assert(r@ =~= s@.take(it.index() + 1));
    }
    assert(s@.take(s@.len() as int) =~= s@);
    r
}

/// Whether two strings hold the same characters.
pub fn same(a: &str, b: &str) -> (r: bool)
    ensures
        r == (a@ == b@),
{
    let x = a.as_bytes();
    let y = b.as_bytes();
    proof {
        vstd::utf8::encode_utf8_decode_utf8(a@);
        vstd::utf8::encode_utf8_decode_utf8(b@);
    }
    if x.len() != y.len() {
        return false;
    }
    let mut i: usize = 0;
    while i < x.len()
        invariant
            x@ == vstd::utf8::encode_utf8(a@),
            y@ == vstd::utf8::encode_utf8(b@),
            x@.len() == y@.len(),
            i <= x@.len(),
            x@.take(i as int) == y@.take(i as int),
        decreases x@.len() - i,
    {
        if x[i] != y[i] {
            return false;
        }
        assert(x@.take(i + 1) =~= x@.take(i as int).push(x@[i as int]));
        assert(y@.take(i + 1) =~= y@.take(i as int).push(y@[i as int]));
        i = i + 1;
    }
    assert(x@.take(i as int) =~= x@);
    assert(y@.take(i as int) =~= y@);
    true
}

/// Whether `s` begins with `prefix`.
pub fn starts_with(s: &str, prefix: &str) -> (r: bool)
    ensures
        r == begins(s@, prefix@),
{
    let n = prefix.unicode_len();
    if s.unicode_len() < n {
        return false;
    }
    same(s.substring_char(0, n), prefix)
}

/// What is left of `s` without a leading `prefix`.
pub fn strip_prefix(s: &str, prefix: &str) -> (r: Option<String>)
    ensures
        r.deep_view() == without_prefix(s@, prefix@),
{
    if starts_with(s, prefix) {
        Some(s.substring_char(prefix.unicode_len(), s.unicode_len()).to_owned())
    } else {
        None
    }
}

/// `s` without one trailing `suffix`, where it ends in one.
pub fn strip_suffix(s: &str, suffix: &str) -> (r: String)
    ensures
        r@ == cut_suffix(s@, suffix@),
{
    let n = s.unicode_len();
    let k = suffix.unicode_len();
    if k <= n && same(s.substring_char(n - k, n), suffix) {
        s.substring_char(0, n - k).to_owned()
    } else {
        s.to_owned()
    }
}

/// Whether `word` stands somewhere in `s`.
pub fn contains(s: &str, word: &str) -> (r: bool)
    ensures
        r == holds_word(s@, word@),
{
    let n = s.unicode_len();
    let k = word.unicode_len();
    if n < k {
        return false;
    }
    let mut i: usize = 0;
    while i <= n - k
        invariant
            n == s@.len(),
            k == word@.len(),
            k <= n,
            i <= n - k + 1,
            forall|j: int| 0 <= j < i ==> !stands_at(s@, word@, j),
        decreases n - i,
    {
        if same(s.substring_char(i, i + k), word) {
            assert(stands_at(s@, word@, i as int));
            return true;
        }
        if i == n - k {
            assert forall|j: int| !stands_at(s@, word@, j) by {}
            return false;
        }
        i = i + 1;
    }
    false
}

/// The parts of `s` before and after the first `c`.
pub fn split_once(s: &str, c: char) -> (r: Option<(String, String)>)
    ensures
        r.deep_view() == halves(s@, c),
{
    let v = chars(s);
    let n = v.len();
    let mut i: usize = 0;
    while i < n
        invariant
            n == v@.len(),
            v@ == s@,
            i <= n,
            forall|j: int| 0 <= j < i ==> s@[j] != c,
        decreases n - i,
    {
        if v[i] == c {
            proof {
                lemma_first_is(s@, c, i as int);
            }
            return Some((s.substring_char(0, i).to_owned(), s.substring_char(i + 1, n).to_owned()));
        }
        i = i + 1;
    }
    proof {
        lemma_first_is(s@, c, n as int);
    }
    None
}

/// Whether `c` has the Unicode property `White_Space`.
pub fn is_white(c: char) -> (r: bool)
    ensures
        r == white(c),
{
    ('\u{9}' <= c && c <= '\u{d}') || c == ' ' || c == '\u{85}' || c == '\u{a0}' || c == '\u{1680}'
        || ('\u{2000}' <= c && c <= '\u{200a}') || c == '\u{2028}' || c == '\u{2029}' || c
        == '\u{202f}' || c == '\u{205f}' || c == '\u{3000}'
}

/// `s` without white space around it.
pub fn trim(s: &str) -> (r: String)
    ensures
        r@ == trimmed(s@),
{
    let ghost f = |c: char| white(c);
    let v = chars(s);
    let n = v.len();
    let mut i: usize = 0;
    while i < n && is_white(v[i])
        invariant
            n == v@.len(),
            v@ == s@,
            i <= n,
            f == (|c: char| white(c)),
            forall|j: int| 0 <= j < i ==> f(#[trigger] s@[j]),
        decreases n - i,
    {
        i = i + 1;
    }
    let mut k: usize = n;
    while k > i && is_white(v[k - 1])
        invariant
            n == v@.len(),
            v@ == s@,
            i <= k <= n,
            f == (|c: char| white(c)),
            forall|j: int| k <= j < n ==> f(#[trigger] s@[j]),
        decreases k,
    {
        k = k - 1;
    }
    proof {
        lemma_drop_leading(s@, f, i as int);
        let t = s@.skip(i as int);
        assert forall|j: int| k - i <= j < t.len() implies f(#[trigger] t[j]) by {
            assert(t[j] == s@[j + i]);
        }
        lemma_drop_trailing(t, f, k - i);
        assert(t.take(k - i) =~= s@.subrange(i as int, k as int));
    }
    s.substring_char(i, k).to_owned()
}

/// `s` without slashes before it.
pub fn trim_start_slashes(s: &str) -> (r: String)
    ensures
        r@ == no_leading_slash(s@),
{
    let ghost f = |c: char| c == '/';
    let v = chars(s);
    let n = v.len();
    let mut i: usize = 0;
    while i < n && v[i] == '/'
        invariant
            n == v@.len(),
            v@ == s@,
            i <= n,
            f == (|c: char| c == '/'),
            forall|j: int| 0 <= j < i ==> f(#[trigger] s@[j]),
        decreases n - i,
    {
        i = i + 1;
    }
    proof {
        lemma_drop_leading(s@, f, i as int);
        assert(s@.subrange(i as int, n as int) =~= s@.skip(i as int));
    }
    s.substring_char(i, n).to_owned()
}

/// `s` without slashes around it.
pub fn trim_slashes(s: &str) -> (r: String)
    ensures
        r@ == no_outer_slash(s@),
{
    let ghost f = |c: char| c == '/';
    let t = trim_start_slashes(s);
    let v = chars(t.as_str());
    let mut k: usize = v.len();
    while k > 0 && v[k - 1] == '/'
        invariant
            v@ == t@,
            k <= v@.len(),
            f == (|c: char| c == '/'),
            forall|j: int| k <= j < v@.len() ==> f(#[trigger] t@[j]),
        decreases k,
    {
        k = k - 1;
    }
    proof {
        lemma_drop_trailing(t@, f, k as int);
        assert(t@.subrange(0, k as int) =~= t@.take(k as int));
    }
    t.as_str().substring_char(0, k).to_owned()
}

/// The pieces of `s` between the occurrences of `c`.
pub fn split_text(s: &str, c: char) -> (r: Vec<String>)
    ensures
        r.deep_view() == split(s@, c),
{
    let v = chars(s);
    let n = v.len();
    let mut out: Vec<String> = Vec::new();
    let mut start: usize = 0;
    let mut i: usize = 0;
    proof {
        assert(s@.skip(0) =~= s@);
        assert(out.deep_view() + split(s@, c) =~= split(s@, c));
    }
    while i < n
        invariant
            n == v@.len(),
            v@ == s@,
            start <= i <= n,
            forall|j: int| start <= j < i ==> s@[j] != c,
            out.deep_view() + split(s@.skip(start as int), c) == split(s@, c),
        decreases n - i,
    {
        if v[i] == c {
            let piece = s.substring_char(start, i).to_owned();
            let ghost before = out.deep_view();
            let ghost t = s@.skip(start as int);
            out.push(piece);
            proof {
                lemma_first_is(t, c, i - start);
                assert(t.take(i - start) =~= piece@);
                assert(t.skip(i - start + 1) =~= s@.skip(i + 1));
                assert(out.deep_view() =~= before.push(piece@));
                assert(out.deep_view() + split(s@.skip(i + 1), c) =~= before + split(t, c));
            }
            start = i + 1;
        }
        i = i + 1;
    }
    let piece = s.substring_char(start, n).to_owned();
    let ghost before = out.deep_view();
    out.push(piece);
    proof {
        let t = s@.skip(start as int);
        assert(piece@ =~= t);
        lemma_first_is(t, c, t.len() as int);
        assert(out.deep_view() =~= before + split(t, c));
    }
    out
}

/// The lines of `s`.
pub fn lines(s: &str) -> (r: Vec<String>)
    ensures
        r.deep_view() == text_lines(s@),
{
    let mut pieces = split_text(s, '\n');
    let ghost all = pieces.deep_view();
    proof {
        crate::sequences::law_split_joined(s@, '\n');
    }
    let n = pieces.len();
    let mut out: Vec<String> = Vec::new();
    let mut i: usize = 0;
    let ghost f = |l: Seq<char>| without_return(l);
    while i < n - 1
        invariant
            n == pieces@.len(),
            n >= 1,
            all == pieces.deep_view(),
            i <= n - 1,
            f == (|l: Seq<char>| without_return(l)),
            out.deep_view() == all.take(i as int).map_values(f),
        decreases n - i,
    {
        let line = pieces[i].as_str();
        let k = line.unicode_len();
        let ghost before = out.deep_view();
        assert(line@ == all[i as int]);
        let kept = if k > 0 && line.get_char(k - 1) == '\r' {
            line.substring_char(0, k - 1).to_owned()
        } else {
            line.to_owned()
        };
        assert(kept@ =~= without_return(line@));
        out.push(kept);
        assert(out.deep_view() =~= before.push(without_return(line@)));
        assert(all.take(i + 1).map_values(f) =~= all.take(i as int).map_values(f).push(f(all[i as int])));
        i = i + 1;
    }
    assert(all.take(n - 1) =~= all.drop_last());
    let ghost before = out.deep_view();
    if !pieces[n - 1].as_str().is_empty() {
        let tail = pieces[n - 1].clone();
        out.push(tail);
        assert(out.deep_view() =~= before.push(all.last()));
    }
    out
}

/// The decimal notation of `n`.
pub fn decimal(n: u64) -> (r: String)
    ensures
        r@ == decimal_text(n as int),
    decreases n,
{
    let mut r = if n < 10 {
        String::new()
    } else {
        decimal(n / 10)
    };
    let d = n % 10;
    let ghost before = r@;
    let mark = if d == 0 {
        "0"
    } else if d == 1 {
        "1"
    } else if d == 2 {
        "2"
    } else if d == 3 {
        "3"
    } else if d == 4 {
        "4"
    } else if d == 5 {
        "5"
    } else if d == 6 {
        "6"
    } else if d == 7 {
        "7"
    } else if d == 8 {
        "8"
    } else {
        "9"
    };
    proof {
        reveal_strlit("0");
        reveal_strlit("1");
        reveal_strlit("2");
        reveal_strlit("3");
        reveal_strlit("4");
        reveal_strlit("5");
        reveal_strlit("6");
        reveal_strlit("7");
        reveal_strlit("8");
        reveal_strlit("9");
        assert(mark@ =~= seq![digit(d as int)]);
    }
    r.append(mark);
    assert(r@ =~= before.push(digit(d as int)));
    assert(n < 10 ==> r@ =~= seq![digit(d as int)]);
    r
}

/// `s` filled up with spaces to at least `width` characters.
pub fn pad(s: &str, width: usize) -> (r: String)
    ensures
        r@ == padded(s@, width as nat),
{
    let mut r = s.to_owned();
    let mut k = s.unicode_len();
    proof {
        reveal_strlit(" ");
    }
    while k < width
        invariant
            r@.len() == k,
            s@.len() <= k,
            k <= width || k == s@.len(),
            r@ == padded(s@, k as nat),
            " "@ =~= seq![' '],
        decreases width - k,
    {
        r.append(" ");
        k = k + 1;
        assert(r@ =~= padded(s@, k as nat));
    }
    assert(r@ =~= padded(s@, width as nat));
    r
}

/// Two strings put together.
pub fn cat(a: &str, b: &str) -> (r: String)
    ensures
        r@ == a@ + b@,
{
    a.to_owned().concat(b)
}

/// Three strings put together.
pub fn cat3(a: &str, b: &str, c: &str) -> (r: String)
    ensures
        r@ == a@ + b@ + c@,
{
    a.to_owned().concat(b).concat(c)
}

/// Copies of the strings.
pub fn copied(s: &Vec<String>) -> (r: Vec<String>)
    ensures
        r.deep_view() == s.deep_view(),
        r@.len() == s@.len(),
{
    let mut r: Vec<String> = Vec::new();
    let mut i: usize = 0;
    while i < s.len()
        invariant
            i <= s@.len(),
            r@.len() == i,
            forall|j: int| 0 <= j < i ==> (#[trigger] r@[j])@ == s@[j]@,
        decreases s@.len() - i,
    {
        r.push(s[i].clone());
        i = i + 1;
    }
    assert(r.deep_view() =~= s.deep_view());
    r
}

} // verus!
