//! Character-level text helpers: whitespace, trimming, decimal numbers,
//! searching, and a lexicographic order on character sequences.

use vstd::prelude::*;
use vstd::string::StringExecFns;

verus! {

/// `char::is_whitespace`: the Unicode `White_Space` property.
pub open spec fn is_space(c: char) -> bool {
    let u = c as u32;
    ||| 0x9 <= u <= 0xd
    ||| u == 0x20
    ||| u == 0x85
    ||| u == 0xa0
    ||| u == 0x1680
    ||| 0x2000 <= u <= 0x200a
    ||| u == 0x2028
    ||| u == 0x2029
    ||| u == 0x202f
    ||| u == 0x205f
    ||| u == 0x3000
}

pub fn char_is_space(c: char) -> (r: bool)
    ensures
        r == is_space(c),
{
    let u: u32 = c as u32;
    (0x9 <= u && u <= 0xd) || u == 0x20 || u == 0x85 || u == 0xa0 || u == 0x1680 || (0x2000 <= u
        && u <= 0x200a) || u == 0x2028 || u == 0x2029 || u == 0x202f || u == 0x205f || u == 0x3000
}

/// The decimal digit for `d < 10`.
pub open spec fn digit(d: nat) -> char {
    if d == 0 { '0' }
    else if d == 1 { '1' }
    else if d == 2 { '2' }
    else if d == 3 { '3' }
    else if d == 4 { '4' }
    else if d == 5 { '5' }
    else if d == 6 { '6' }
    else if d == 7 { '7' }
    else if d == 8 { '8' }
    else { '9' }
}

/// Decimal notation of `n`, without leading zeros.
pub open spec fn decimal(n: nat) -> Seq<char>
    decreases n,
{
    if n < 10 {
        seq![digit(n)]
    } else {
        decimal(n / 10).push(digit(n % 10))
    }
}

fn digit_char(d: u64) -> (c: char)
    requires
        d < 10,
    ensures
        c == digit(d as nat),
{
    if d == 0 { '0' }
    else if d == 1 { '1' }
    else if d == 2 { '2' }
    else if d == 3 { '3' }
    else if d == 4 { '4' }
    else if d == 5 { '5' }
    else if d == 6 { '6' }
    else if d == 7 { '7' }
    else if d == 8 { '8' }
    else { '9' }
}

/// Appends the decimal notation of `n` to `out`.
pub fn push_decimal(n: u64, out: &mut Vec<char>)
    ensures
        final(out)@ == old(out)@ + decimal(n as nat),
    decreases n,
{
    if n < 10 {
        out.push(digit_char(n));
    } else {
        push_decimal(n / 10, out);
        out.push(digit_char(n % 10));
        proof {
            assert(decimal(n as nat) == decimal((n / 10) as nat).push(digit((n % 10) as nat)));
        }
    }
}

/// The decimal notation of `n` as a string.
pub fn decimal_string(n: u64) -> (s: String)
    ensures
        s@ == decimal(n as nat),
{
    let mut out: Vec<char> = Vec::new();
    push_decimal(n, &mut out);
    assert(out@ =~= decimal(n as nat));
    string_from_chars(&out)
}

/// `String::push`: appends one character.
#[verifier::external_body]
fn push_char(s: &mut String, c: char)
    ensures
        final(s)@ == old(s)@.push(c),
{
    s.push(c);
}

/// The string made of `chars`.
pub(crate) fn string_from_chars(chars: &[char]) -> (s: String)
    ensures
        s@ == chars@,
{
    let mut s = String::new();
    let mut i: usize = 0;
    while i < chars.len()
        invariant
            0 <= i <= chars@.len(),
            s@ == chars@.take(i as int),
        decreases chars.len() - i,
    {
        push_char(&mut s, chars[i]);
        i = i + 1;
        assert(s@ =~= chars@.take(i as int));
    }
    assert(chars@.take(i as int) =~= chars@);
    s
}

/// The characters of a string slice.
pub(crate) fn chars_of(s: &str) -> (v: Vec<char>)
    ensures
        v@ == s@,
{
    let mut v: Vec<char> = Vec::new();
    for c in it: s.chars()
        invariant
            it.seq() == s@,
            v@ == it.seq().take(it.index() as int),
    {
        v.push(c);
    }
    v
}

/// `s` without its leading whitespace.
pub open spec fn trim_start(s: Seq<char>) -> Seq<char>
    decreases s.len(),
{
    if s.len() > 0 && is_space(s[0]) {
        trim_start(s.drop_first())
    } else {
        s
    }
}

/// `s` without its trailing whitespace.
pub open spec fn trim_end(s: Seq<char>) -> Seq<char>
    decreases s.len(),
{
    if s.len() > 0 && is_space(s.last()) {
        trim_end(s.drop_last())
    } else {
        s
    }
}

/// `str::trim`: `s` without leading and trailing whitespace.
pub open spec fn trim(s: Seq<char>) -> Seq<char> {
    trim_end(trim_start(s))
}

proof fn lemma_trim_start_at(s: Seq<char>, i: int)
    requires
        0 <= i <= s.len(),
        forall|k: int| 0 <= k < i ==> is_space(#[trigger] s[k]),
        i == s.len() || !is_space(s[i]),
    ensures
        trim_start(s) == s.subrange(i, s.len() as int),
    decreases i,
{
    if i == 0 {
        assert(s.subrange(0, s.len() as int) =~= s);
    } else {
        let t = s.drop_first();
        assert forall|k: int| 0 <= k < i - 1 implies is_space(#[trigger] t[k]) by {
            assert(t[k] == s[k + 1]);
        }
        if i - 1 < t.len() {
            assert(t[i - 1] == s[i]);
        }
        lemma_trim_start_at(t, i - 1);
        assert(t.subrange(i - 1, t.len() as int) =~= s.subrange(i, s.len() as int));
    }
}

proof fn lemma_trim_end_at(s: Seq<char>, j: int)
    requires
        0 <= j <= s.len(),
        forall|k: int| j <= k < s.len() ==> is_space(#[trigger] s[k]),
        j == 0 || !is_space(s[j - 1]),
    ensures
        trim_end(s) == s.subrange(0, j),
    decreases s.len() - j,
{
    if j == s.len() {
        assert(s.subrange(0, j) =~= s);
    } else {
        let t = s.drop_last();
        assert forall|k: int| j <= k < t.len() implies is_space(#[trigger] t[k]) by {
            assert(t[k] == s[k]);
        }
        if j > 0 {
            assert(t[j - 1] == s[j - 1]);
        }
        lemma_trim_end_at(t, j);
        assert(t.subrange(0, j) =~= s.subrange(0, j));
    }
}

/// Characters of `s` between the first and the last non-whitespace character.
pub fn trim_chars(s: &Vec<char>) -> (r: Vec<char>)
    ensures
        r@ == trim(s@),
{
    let n = s.len();
    let mut i: usize = 0;
    while i < n && char_is_space(s[i])
        invariant
            n == s.len(),
            0 <= i <= n,
            forall|k: int| 0 <= k < i ==> is_space(#[trigger] s@[k]),
        decreases n - i,
    {
        i = i + 1;
    }
    proof {
        lemma_trim_start_at(s@, i as int);
    }
    let mut j: usize = n;
    while j > i && char_is_space(s[j - 1])
        invariant
            n == s.len(),
            i <= j <= n,
            forall|k: int| j <= k < n ==> is_space(#[trigger] s@[k]),
        decreases j,
    {
        j = j - 1;
    }
    let ghost t = s@.subrange(i as int, n as int);
    proof {
        assert forall|k: int| j - i <= k < t.len() implies is_space(#[trigger] t[k]) by {
            assert(t[k] == s@[k + i]);
        }
        if j > i {
            assert(t[j - i - 1] == s@[j - 1]);
        }
        lemma_trim_end_at(t, j - i);
        assert(t.subrange(0, j - i) =~= s@.subrange(i as int, j as int));
    }
    let mut r: Vec<char> = Vec::new();
    let mut k: usize = i;
    while k < j
        invariant
            n == s.len(),
            i <= k <= j <= n,
            r@ =~= s@.subrange(i as int, k as int),
        decreases j - k,
    {
        r.push(s[k]);
        k = k + 1;
    }
    r
}

/// `str::trim` on a string, as an owned string.
pub fn trim_string(s: &str) -> (r: String)
    ensures
        r@ == trim(s@),
{
    let cs = chars_of(s);
    let t = trim_chars(&cs);
    string_from_chars(&t)
}


/// `split_whitespace` joined by single spaces: every run of whitespace
/// becomes one space, and none remains at either end.
pub open spec fn collapse(s: Seq<char>) -> Seq<char>
    decreases s.len(),
{
    if s.len() == 0 {
        Seq::empty()
    } else {
        let p = s.drop_last();
        let c = s.last();
        if is_space(c) {
            collapse(p)
        } else if p.len() > 0 && !is_space(p.last()) {
            collapse(p).push(c)
        } else if collapse(p).len() == 0 {
            seq![c]
        } else {
            collapse(p).push(' ').push(c)
        }
    }
}

/// Whitespace-collapsed characters of `s`.
pub fn collapse_chars(s: &Vec<char>) -> (r: Vec<char>)
    ensures
        r@ == collapse(s@),
{
    let mut out: Vec<char> = Vec::new();
    let mut i: usize = 0;
    while i < s.len()
        invariant
            0 <= i <= s.len(),
            out@ == collapse(s@.take(i as int)),
        decreases s.len() - i,
    {
        let c = s[i];
        let ghost p = s@.take(i as int);
        proof {
            assert(s@.take(i + 1).drop_last() =~= p);
            assert(s@.take(i + 1).last() == c);
            if i > 0 {
                assert(p.last() == s@[i - 1]);
            }
        }
        if char_is_space(c) {
        } else if i > 0 && !char_is_space(s[i - 1]) {
            out.push(c);
        } else if out.len() == 0 {
            out.push(c);
            assert(out@ =~= seq![c]);
        } else {
            out.push(' ');
            out.push(c);
        }
        i = i + 1;
    }
    assert(s@.take(s.len() as int) =~= s@);
    out
}

/// The markup-safe spelling of one character.
pub open spec fn escape_char(c: char) -> Seq<char> {
    if c == '<' {
        seq!['&', 'l', 't', ';']
    } else if c == '>' {
        seq!['&', 'g', 't', ';']
    } else if c == '&' {
        seq!['&', 'a', 'm', 'p', ';']
    } else if c == '"' {
        seq!['&', 'q', 'u', 'o', 't', ';']
    } else if c == '\'' {
        seq!['&', '#', '3', '9', ';']
    } else {
        seq![c]
    }
}

/// Every character of `s` replaced by its markup-safe spelling.
pub open spec fn escape_markup(s: Seq<char>) -> Seq<char>
    decreases s.len(),
{
    if s.len() == 0 {
        Seq::empty()
    } else {
        escape_markup(s.drop_last()) + escape_char(s.last())
    }
}

fn push_all(out: &mut Vec<char>, cs: &[char])
    ensures
        final(out)@ == old(out)@ + cs@,
{
    let mut i: usize = 0;
    while i < cs.len()
        invariant
            0 <= i <= cs.len(),
            out@ == old(out)@ + cs@.take(i as int),
        decreases cs.len() - i,
    {
        out.push(cs[i]);
        i = i + 1;
        assert(old(out)@ + cs@.take(i as int) =~= (old(out)@ + cs@.take(i - 1)).push(cs@[i - 1]));
    }
    assert(cs@.take(cs.len() as int) =~= cs@);
}

/// Markup-escaped characters of `s`.
pub fn escape_markup_chars(s: &Vec<char>) -> (r: Vec<char>)
    ensures
        r@ == escape_markup(s@),
{
    let mut out: Vec<char> = Vec::new();
    let mut i: usize = 0;
    while i < s.len()
        invariant
            0 <= i <= s.len(),
            out@ == escape_markup(s@.take(i as int)),
        decreases s.len() - i,
    {
        let c = s[i];
        proof {
            assert(s@.take(i + 1).drop_last() =~= s@.take(i as int));
            assert(s@.take(i + 1).last() == c);
        }
        if c == '<' {
            push_all(&mut out, &['&', 'l', 't', ';']);
        } else if c == '>' {
            push_all(&mut out, &['&', 'g', 't', ';']);
        } else if c == '&' {
            push_all(&mut out, &['&', 'a', 'm', 'p', ';']);
        } else if c == '"' {
            push_all(&mut out, &['&', 'q', 'u', 'o', 't', ';']);
        } else if c == '\'' {
            push_all(&mut out, &['&', '#', '3', '9', ';']);
        } else {
            out.push(c);
            assert(out@ =~= escape_markup(s@.take(i as int)) + seq![c]);
        }
        i = i + 1;
    }
    assert(s@.take(s.len() as int) =~= s@);
    out
}


/// `pat` occurs in `s` starting at index `i`.
pub open spec fn occurs_at(s: Seq<char>, pat: Seq<char>, i: int) -> bool {
    0 <= i && i + pat.len() <= s.len() && s.subrange(i, i + pat.len()) == pat
}

/// First index at or after `from` where `pat` occurs in `s`.
pub open spec fn find_from(s: Seq<char>, pat: Seq<char>, from: int) -> Option<int>
    decreases s.len() + 1 - from,
{
    if from < 0 || from + pat.len() > s.len() {
        None
    } else if occurs_at(s, pat, from) {
        Some(from)
    } else {
        find_from(s, pat, from + 1)
    }
}

/// `str::find`: the first index where `pat` occurs in `s`.
pub open spec fn find(s: Seq<char>, pat: Seq<char>) -> Option<int> {
    find_from(s, pat, 0)
}

pub proof fn lemma_find_from(s: Seq<char>, pat: Seq<char>, from: int)
    requires
        0 <= from,
    ensures
        match find_from(s, pat, from) {
            Some(i) => from <= i && occurs_at(s, pat, i) && forall|j: int|
                from <= j < i ==> !occurs_at(s, pat, j),
            None => forall|j: int| from <= j ==> !occurs_at(s, pat, j),
        },
    decreases s.len() + 1 - from,
{
    if from + pat.len() > s.len() {
    } else if occurs_at(s, pat, from) {
    } else {
        lemma_find_from(s, pat, from + 1);
    }
}

fn occurs_at_exec(s: &Vec<char>, pat: &[char], i: usize) -> (r: bool)
    requires
        i + pat@.len() <= s@.len(),
    ensures
        r == occurs_at(s@, pat@, i as int),
{
    let n = s.len();
    let mut k: usize = 0;
    while k < pat.len()
        invariant
            n == s@.len(),
            i + pat@.len() <= s@.len(),
            0 <= k <= pat@.len(),
            forall|m: int| 0 <= m < k ==> s@[i + m] == pat@[m],
        decreases pat.len() - k,
    {
        if s[i + k] != pat[k] {
            assert(s@.subrange(i as int, i + pat@.len())[k as int] != pat@[k as int]);
            return false;
        }
        k = k + 1;
    }
    assert(s@.subrange(i as int, i + pat@.len()) =~= pat@);
    true
}

/// First index where `pat` occurs in `s`.
pub fn find_chars(s: &Vec<char>, pat: &[char]) -> (r: Option<usize>)
    ensures
        match r {
            Some(i) => find(s@, pat@) == Some(i as int),
            None => find(s@, pat@) is None,
        },
{
    if pat.len() > s.len() {
        return None;
    }
    let last = s.len() - pat.len();
    let mut i: usize = 0;
    loop
        invariant
            last == s@.len() - pat@.len(),
            i <= last,
            find(s@, pat@) == find_from(s@, pat@, i as int),
        decreases last - i,
    {
        if occurs_at_exec(s, pat, i) {
            return Some(i);
        }
        if i == last {
            assert(find_from(s@, pat@, i + 1) is None);
            return None;
        }
        i = i + 1;
    }
}

/// `str::trim_end_matches(c)`: `s` without any trailing `c`.
pub open spec fn strip_trailing(s: Seq<char>, c: char) -> Seq<char>
    decreases s.len(),
{
    if s.len() > 0 && s.last() == c {
        strip_trailing(s.drop_last(), c)
    } else {
        s
    }
}

/// Characters of `s` without any trailing `c`.
pub fn strip_trailing_chars(s: &Vec<char>, c: char) -> (r: Vec<char>)
    ensures
        r@ == strip_trailing(s@, c),
{
    let mut j: usize = s.len();
    assert(s@.take(j as int) =~= s@);
    while j > 0 && s[j - 1] == c
        invariant
            0 <= j <= s.len(),
            strip_trailing(s@, c) == strip_trailing(s@.take(j as int), c),
        decreases j,
    {
        assert(s@.take(j as int).drop_last() =~= s@.take(j - 1));
        j = j - 1;
    }
    let mut r: Vec<char> = Vec::new();
    let mut k: usize = 0;
    while k < j
        invariant
            0 <= k <= j <= s.len(),
            r@ =~= s@.take(k as int),
        decreases j - k,
    {
        r.push(s[k]);
        k = k + 1;
    }
    r
}

/// Lexicographic order on character sequences by code point, which is the
/// order of `String`'s `Ord` (UTF-8 preserves code point order).
pub open spec fn seq_le(a: Seq<char>, b: Seq<char>) -> bool
    decreases a.len(),
{
    if a.len() == 0 {
        true
    } else if b.len() == 0 {
        false
    } else if (a[0] as int) < (b[0] as int) {
        true
    } else if (a[0] as int) > (b[0] as int) {
        false
    } else {
        seq_le(a.drop_first(), b.drop_first())
    }
}

pub proof fn lemma_seq_le_total(a: Seq<char>, b: Seq<char>)
    ensures
        seq_le(a, b) || seq_le(b, a),
    decreases a.len(),
{
    if a.len() > 0 && b.len() > 0 && a[0] as int == b[0] as int {
        lemma_seq_le_total(a.drop_first(), b.drop_first());
    }
}

pub proof fn lemma_seq_le_transitive(a: Seq<char>, b: Seq<char>, c: Seq<char>)
    requires
        seq_le(a, b),
        seq_le(b, c),
    ensures
        seq_le(a, c),
    decreases a.len(),
{
    if a.len() > 0 && b.len() > 0 && c.len() > 0 && a[0] as int == b[0] as int && b[0] as int
        == c[0] as int {
        lemma_seq_le_transitive(a.drop_first(), b.drop_first(), c.drop_first());
    }
}

pub proof fn lemma_seq_le_antisymmetric(a: Seq<char>, b: Seq<char>)
    requires
        seq_le(a, b),
        seq_le(b, a),
    ensures
        a == b,
    decreases a.len(),
{
    if a.len() == 0 || b.len() == 0 {
        assert(a =~= b);
    } else {
        lemma_seq_le_antisymmetric(a.drop_first(), b.drop_first());
        assert(a[0] as int == b[0] as int);
        assert(a[0] == b[0]);
        assert(a =~= seq![a[0]] + a.drop_first());
        assert(b =~= seq![b[0]] + b.drop_first());
    }
}

/// Lexicographic comparison of two character sequences.
pub fn chars_le(a: &Vec<char>, b: &Vec<char>) -> (r: bool)
    ensures
        r == seq_le(a@, b@),
{
    let mut i: usize = 0;
    assert(a@.skip(0) =~= a@);
    assert(b@.skip(0) =~= b@);
    while i < a.len() && i < b.len() && a[i] == b[i]
        invariant
            0 <= i <= a.len(),
            i <= b.len(),
            seq_le(a@, b@) == seq_le(a@.skip(i as int), b@.skip(i as int)),
        decreases a.len() - i,
    {
        assert(a@.skip(i as int).drop_first() =~= a@.skip(i + 1));
        assert(b@.skip(i as int).drop_first() =~= b@.skip(i + 1));
        i = i + 1;
    }
    if i == a.len() {
        true
    } else if i == b.len() {
        false
    } else {
        assert(a@.skip(i as int)[0] == a@[i as int]);
        assert(b@.skip(i as int)[0] == b@[i as int]);
        a[i] < b[i]
    }
}


/// Equality of two string slices.
pub fn text_eq(a: &str, b: &str) -> (r: bool)
    ensures
        r == (a@ == b@),
{
    String::from_str(a) == String::from_str(b)
}

/// `a` followed by `b`.
pub fn join2(a: &str, b: &str) -> (r: String)
    ensures
        r@ == a@ + b@,
{
    let mut s = String::from_str(a);
    s.append(b);
    s
}

/// `a`, `b` and `c` in a row.
pub fn join3(a: &str, b: &str, c: &str) -> (r: String)
    ensures
        r@ == a@ + b@ + c@,
{
    let mut s = String::from_str(a);
    s.append(b);
    s.append(c);
    s
}

/// The view of an optional string.
pub open spec fn opt_view(o: Option<String>) -> Option<Seq<char>> {
    match o {
        Some(s) => Some(s@),
        None => None,
    }
}


/// What `str::to_lowercase` (Unicode full lower-case mapping) makes of a text.
pub uninterp spec fn lowercase(s: Seq<char>) -> Seq<char>;

/// `str::to_lowercase`. The contract names the result only; the Unicode
/// case mapping itself is left unsaid.
#[verifier::external_body]
pub(crate) fn to_lowercase(s: &str) -> (r: String)
    ensures
        r@ == lowercase(s@),
{
    s.to_lowercase()
}

/// The texts of `parts` with `sep` between each two.
pub open spec fn join(parts: Seq<Seq<char>>, sep: Seq<char>) -> Seq<char>
    decreases parts.len(),
{
    if parts.len() == 0 {
        Seq::empty()
    } else if parts.len() == 1 {
        parts[0]
    } else {
        join(parts.drop_last(), sep) + sep + parts.last()
    }
}


/// The views of some strings.
pub open spec fn views(parts: Seq<String>) -> Seq<Seq<char>> {
    parts.map_values(|s: String| s@)
}

/// `parts` joined with `sep` between each two (`[String]::join`).
pub fn join_strings(parts: &Vec<String>, sep: &str) -> (r: String)
    ensures
        r@ == join(views(parts@), sep@),
{
    let mut out = String::from_str("");
    proof {
        reveal_strlit("");
    }
    let mut i: usize = 0;
    while i < parts.len()
        invariant
            0 <= i <= parts@.len(),
            out@ == join(views(parts@.take(i as int)), sep@),
        decreases parts.len() - i,
    {
        let ghost prefix = views(parts@.take(i as int));
        proof {
            assert(views(parts@.take(i + 1)).drop_last() =~= prefix);
            assert(views(parts@.take(i + 1)).last() == parts@[i as int]@);
            assert(views(parts@.take(i + 1)).len() == i + 1);
        }
        if i > 0 {
            out.append(sep);
        } else {
            assert(out@ =~= Seq::<char>::empty());
        }
        out.append(parts[i].as_str());
        proof {
            if i == 0 {
                assert(out@ =~= parts@[0]@);
            }
        }
        i = i + 1;
    }
    assert(parts@.take(parts@.len() as int) =~= parts@);
    out
}


/// Escaped text holds no markup-significant character other than the `&`
/// that starts an entity: no `<`, `>`, `"` or `'`.
pub proof fn law_escaped_text_has_no_markup(s: Seq<char>)
    ensures
        forall|i: int|
            0 <= i < escape_markup(s).len() ==> {
                let c = #[trigger] escape_markup(s)[i];
                c != '<' && c != '>' && c != '"' && c != '\''
            },
    decreases s.len(),
{
    if s.len() > 0 {
        law_escaped_text_has_no_markup(s.drop_last());
        let a = escape_markup(s.drop_last());
        let b = escape_char(s.last());
        assert forall|i: int| 0 <= i < (a + b).len() implies {
            let c = #[trigger] (a + b)[i];
            c != '<' && c != '>' && c != '"' && c != '\''
        } by {
            if i >= a.len() {
                assert((a + b)[i] == b[i - a.len()]);
            } else {
                assert((a + b)[i] == a[i]);
            }
        }
    }
}

/// Escaping works character by character: the escape of `a + b` is the
/// escape of `a` followed by the escape of `b`.
pub proof fn law_escape_distributes(a: Seq<char>, b: Seq<char>)
    ensures
        escape_markup(a + b) == escape_markup(a) + escape_markup(b),
    decreases b.len(),
{
    if b.len() == 0 {
        assert(a + b =~= a);
        assert(escape_markup(b) =~= Seq::<char>::empty());
        assert(escape_markup(a) + escape_markup(b) =~= escape_markup(a));
    } else {
        law_escape_distributes(a, b.drop_last());
        assert((a + b).drop_last() =~= a + b.drop_last());
        assert((a + b).last() == b.last());
        assert(escape_markup(a + b) =~= escape_markup(a) + escape_markup(b));
    }
}

/// The character an entity at the start of `s` stands for, and the
/// entity's length: `&lt;`, `&gt;`, `&quot;`, `&#39;` or `&amp;`.
pub open spec fn entity_at(s: Seq<char>) -> Option<(char, nat)> {
    if s.len() >= 4 && s[0] == '&' && s[1] == 'l' && s[2] == 't' && s[3] == ';' {
        Some(('<', 4))
    } else if s.len() >= 4 && s[0] == '&' && s[1] == 'g' && s[2] == 't' && s[3] == ';' {
        Some(('>', 4))
    } else if s.len() >= 6 && s[0] == '&' && s[1] == 'q' && s[2] == 'u' && s[3] == 'o' && s[4]
        == 't' && s[5] == ';' {
        Some(('"', 6))
    } else if s.len() >= 5 && s[0] == '&' && s[1] == '#' && s[2] == '3' && s[3] == '9' && s[4]
        == ';' {
        Some(('\'', 5))
    } else if s.len() >= 5 && s[0] == '&' && s[1] == 'a' && s[2] == 'm' && s[3] == 'p' && s[4]
        == ';' {
        Some(('&', 5))
    } else {
        None
    }
}

/// `s` read left to right with every entity replaced by the character it
/// stands for.
pub open spec fn unescape(s: Seq<char>) -> Seq<char>
    decreases s.len(),
{
    if s.len() == 0 {
        Seq::empty()
    } else {
        match entity_at(s) {
            Some((c, n)) => seq![c] + unescape(s.skip(n as int)),
            None => seq![s[0]] + unescape(s.skip(1)),
        }
    }
}

/// A markup-significant character: one that escaping replaces.
pub open spec fn is_markup(c: char) -> bool {
    c == '<' || c == '>' || c == '&' || c == '"' || c == '\''
}

proof fn lemma_unescape_escaped_char(c: char, rest: Seq<char>)
    ensures
        unescape(escape_char(c) + rest) == seq![c] + unescape(rest),
{
    let e = escape_char(c);
    let s = e + rest;
    assert(s.len() > 0);
    assert(s.skip(e.len() as int) =~= rest);
    if is_markup(c) {
        assert(s[0] == e[0] && s[1] == e[1] && s[2] == e[2] && s[3] == e[3]);
        if e.len() >= 5 {
            assert(s[4] == e[4]);
        }
        if e.len() >= 6 {
            assert(s[5] == e[5]);
        }
    } else {
        assert(s[0] == c);
        assert(entity_at(s) is None);
    }
}

proof fn lemma_escape_first(v: Seq<char>)
    requires
        v.len() > 0,
    ensures
        escape_markup(v) == escape_char(v[0]) + escape_markup(v.drop_first()),
{
    law_escape_distributes(seq![v[0]], v.drop_first());
    assert(seq![v[0]] + v.drop_first() =~= v);
    assert(seq![v[0]].drop_last() =~= Seq::<char>::empty());
    assert(escape_markup(Seq::<char>::empty()) =~= Seq::<char>::empty());
    assert(escape_markup(seq![v[0]]) == escape_markup(Seq::<char>::empty()) + escape_char(v[0]));
    assert(escape_markup(seq![v[0]]) =~= escape_char(v[0]));
}

/// Escaping loses nothing: reading the escaped text left to right and
/// replacing each `&lt;`, `&gt;`, `&quot;`, `&#39;` and `&amp;` by the
/// character it stands for gives back the original text exactly.
pub proof fn law_unescape_undoes_escape(v: Seq<char>)
    ensures
        unescape(escape_markup(v)) == v,
    decreases v.len(),
{
    if v.len() == 0 {
        assert(escape_markup(v) =~= Seq::<char>::empty());
        assert(unescape(escape_markup(v)) =~= v);
    } else {
        lemma_escape_first(v);
        lemma_unescape_escaped_char(v[0], escape_markup(v.drop_first()));
        law_unescape_undoes_escape(v.drop_first());
        assert(seq![v[0]] + v.drop_first() =~= v);
    }
}

proof fn lemma_escape_len(v: Seq<char>)
    ensures
        escape_markup(v).len() >= v.len(),
        (exists|i: int| 0 <= i < v.len() && is_markup(#[trigger] v[i])) ==> escape_markup(v).len()
            > v.len(),
    decreases v.len(),
{
    if v.len() > 0 {
        let p = v.drop_last();
        lemma_escape_len(p);
        if exists|i: int| 0 <= i < v.len() && is_markup(#[trigger] v[i]) {
            let i = choose|i: int| 0 <= i < v.len() && is_markup(#[trigger] v[i]);
            if i < v.len() - 1 {
                assert(p[i] == v[i]);
            }
        }
    }
}

proof fn lemma_escape_plain(v: Seq<char>)
    requires
        forall|i: int| 0 <= i < v.len() ==> !is_markup(#[trigger] v[i]),
    ensures
        escape_markup(v) == v,
    decreases v.len(),
{
    if v.len() > 0 {
        let p = v.drop_last();
        assert forall|i: int| 0 <= i < p.len() implies !is_markup(#[trigger] p[i]) by {
            assert(p[i] == v[i]);
        }
        lemma_escape_plain(p);
        assert(!is_markup(v[v.len() - 1]));
        assert(escape_markup(v) =~= p + seq![v.last()]);
        assert(p + seq![v.last()] =~= v);
    }
}

/// Escaping changes a text exactly when it holds one of `<`, `>`, `&`, `"`
/// or `'`.
pub proof fn law_escape_changes_only_markup(v: Seq<char>)
    ensures
        escape_markup(v) == v <==> forall|i: int| 0 <= i < v.len() ==> !is_markup(#[trigger] v[i]),
{
    lemma_escape_len(v);
    if forall|i: int| 0 <= i < v.len() ==> !is_markup(#[trigger] v[i]) {
        lemma_escape_plain(v);
    }
}

proof fn lemma_trim_start_shape(s: Seq<char>)
    ensures
        trim_start(s).len() == 0 || !is_space(trim_start(s)[0]),
        trim_start(s).len() <= s.len(),
        trim_start(s) == s.subrange(s.len() - trim_start(s).len(), s.len() as int),
    decreases s.len(),
{
    if s.len() > 0 && is_space(s[0]) {
        lemma_trim_start_shape(s.drop_first());
        assert(s.drop_first().subrange(
            s.drop_first().len() - trim_start(s.drop_first()).len(),
            s.drop_first().len() as int,
        ) =~= s.subrange(s.len() - trim_start(s).len(), s.len() as int));
    } else {
        assert(s.subrange(0, s.len() as int) =~= s);
    }
}

proof fn lemma_trim_end_shape(s: Seq<char>)
    ensures
        trim_end(s).len() == 0 || !is_space(trim_end(s).last()),
        trim_end(s).len() <= s.len(),
        trim_end(s) == s.subrange(0, trim_end(s).len() as int),
    decreases s.len(),
{
    if s.len() > 0 && is_space(s.last()) {
        lemma_trim_end_shape(s.drop_last());
        assert(s.drop_last().subrange(0, trim_end(s.drop_last()).len() as int) =~= s.subrange(
            0,
            trim_end(s).len() as int,
        ));
    } else {
        assert(s.subrange(0, s.len() as int) =~= s);
    }
}

proof fn lemma_trim_end_keeps_start(s: Seq<char>)
    requires
        s.len() == 0 || !is_space(s[0]),
    ensures
        trim_end(s).len() == 0 || !is_space(trim_end(s)[0]),
{
    lemma_trim_end_shape(s);
    if trim_end(s).len() > 0 {
        assert(trim_end(s)[0] == s[0]);
    }
}

/// Trimmed text starts and ends with a non-whitespace character (or is
/// empty), and trimming it again changes nothing.
pub proof fn law_trim_is_idempotent(s: Seq<char>)
    ensures
        trim(s).len() == 0 || (!is_space(trim(s)[0]) && !is_space(trim(s).last())),
        trim(trim(s)) == trim(s),
{
    lemma_trim_start_shape(s);
    lemma_trim_end_keeps_start(trim_start(s));
    lemma_trim_end_shape(trim_start(s));
    let t = trim(s);
    if t.len() > 0 {
        assert(trim_start(t) == t);
        assert(trim_end(t) == t);
    } else {
        assert(trim_start(t) =~= t);
        assert(trim_end(t) =~= t);
    }
}

/// A string cut of trailing `c` does not end with `c`.
pub proof fn law_strip_trailing_leaves_no_trailing(s: Seq<char>, c: char)
    ensures
        strip_trailing(s, c).len() == 0 || strip_trailing(s, c).last() != c,
        strip_trailing(s, c).len() <= s.len(),
    decreases s.len(),
{
    if s.len() > 0 && s.last() == c {
        law_strip_trailing_leaves_no_trailing(s.drop_last(), c);
    }
}

/// Collapsed text has no whitespace but single spaces between words: it
/// neither starts nor ends with a space, and no two spaces meet.
pub proof fn law_collapsed_text_is_single_spaced(s: Seq<char>)
    ensures
        forall|i: int|
            0 <= i < collapse(s).len() ==> (#[trigger] collapse(s)[i] == ' ' || !is_space(
                collapse(s)[i],
            )),
        collapse(s).len() == 0 || (collapse(s)[0] != ' ' && collapse(s).last() != ' '),
        forall|i: int|
            0 <= i < collapse(s).len() - 1 ==> !(#[trigger] collapse(s)[i] == ' ' && collapse(
                s,
            )[i + 1] == ' '),
    decreases s.len(),
{
    if s.len() > 0 {
        let p = s.drop_last();
        let c = s.last();
        law_collapsed_text_is_single_spaced(p);
        let cp = collapse(p);
        if is_space(c) {
        } else if p.len() > 0 && !is_space(p.last()) {
            let r = cp.push(c);
            assert(collapse(s) == r);
            assert forall|i: int| 0 <= i < r.len() implies (#[trigger] r[i] == ' ' || !is_space(
                r[i],
            )) by {
                if i < cp.len() {
                    assert(r[i] == cp[i]);
                }
            }
            assert forall|i: int| 0 <= i < r.len() - 1 implies !(#[trigger] r[i] == ' ' && r[i
                + 1] == ' ') by {
                assert(r[i] == cp[i]);
                if i + 1 < cp.len() {
                    assert(r[i + 1] == cp[i + 1]);
                }
            }
            if cp.len() > 0 {
                assert(r[0] == cp[0]);
            }
        } else if cp.len() == 0 {
        } else {
            let r = cp.push(' ').push(c);
            assert(collapse(s) == r);
            assert forall|i: int| 0 <= i < r.len() implies (#[trigger] r[i] == ' ' || !is_space(
                r[i],
            )) by {
                if i < cp.len() {
                    assert(r[i] == cp[i]);
                }
            }
            assert forall|i: int| 0 <= i < r.len() - 1 implies !(#[trigger] r[i] == ' ' && r[i
                + 1] == ' ') by {
                if i + 1 < cp.len() {
                    assert(r[i] == cp[i]);
                    assert(r[i + 1] == cp[i + 1]);
                } else if i + 1 == cp.len() {
                    assert(r[i] == cp.last());
                }
            }
            assert(r[0] == cp[0]);
        }
    }
}

} // verus!
