//! Character-level text helpers shared by the parsers: every function works
//! on the characters of a string and is specified over `Seq<char>`.
use vstd::prelude::*;

verus! {

// ---------------------------------------------------------------------------
// Specifications
// ---------------------------------------------------------------------------

/// Unicode `White_Space`, the property behind `char::is_whitespace`.
pub open spec fn is_ws(c: char) -> bool {
    let u = c as u32;
    ||| 9 <= u <= 13
    ||| u == 32
    ||| u == 0x85
    ||| u == 0xa0
    ||| u == 0x1680
    ||| 0x2000 <= u <= 0x200a
    ||| u == 0x2028
    ||| u == 0x2029
    ||| u == 0x202f
    ||| u == 0x205f
    ||| u == 0x3000
}

pub open spec fn ws() -> spec_fn(char) -> bool {
    |c: char| is_ws(c)
}

pub open spec fn is_char(c: char) -> spec_fn(char) -> bool {
    |x: char| x == c
}

/// `s` without its leading characters that satisfy `p`.
pub open spec fn trim_start_by(s: Seq<char>, p: spec_fn(char) -> bool) -> Seq<char>
    decreases s.len(),
{
    if s.len() > 0 && p(s[0]) {
        trim_start_by(s.drop_first(), p)
    } else {
        s
    }
}

/// `s` without its trailing characters that satisfy `p`.
pub open spec fn trim_end_by(s: Seq<char>, p: spec_fn(char) -> bool) -> Seq<char>
    decreases s.len(),
{
    if s.len() > 0 && p(s.last()) {
        trim_end_by(s.drop_last(), p)
    } else {
        s
    }
}

/// `str::trim`: leading and trailing white space removed.
pub open spec fn ws_trimmed(s: Seq<char>) -> Seq<char> {
    trim_end_by(trim_start_by(s, ws()), ws())
}

/// `str::trim_matches(c)`: every leading and trailing `c` removed.
pub open spec fn char_trimmed(s: Seq<char>, c: char) -> Seq<char> {
    trim_end_by(trim_start_by(s, is_char(c)), is_char(c))
}

/// A line without the `'\r'` of a `"\r\n"` ending.
pub open spec fn strip_cr(line: Seq<char>) -> Seq<char> {
    if line.len() > 0 && line.last() == '\r' {
        line.drop_last()
    } else {
        line
    }
}

/// The lines of `s` that follow a partial line `cur`, as `str::lines` cuts
/// them: at each `'\n'` (dropping a `'\r'` just before it); a last line
/// without `'\n'` is kept whole, and no empty line follows a final `'\n'`.
pub open spec fn lines_from(s: Seq<char>, cur: Seq<char>) -> Seq<Seq<char>>
    decreases s.len(),
{
    if s.len() == 0 {
        if cur.len() == 0 {
            seq![]
        } else {
            seq![cur]
        }
    } else if s[0] == '\n' {
        seq![strip_cr(cur)] + lines_from(s.drop_first(), seq![])
    } else {
        lines_from(s.drop_first(), cur.push(s[0]))
    }
}

/// `str::lines`.
pub open spec fn text_lines(s: Seq<char>) -> Seq<Seq<char>> {
    lines_from(s, seq![])
}

/// The pieces of `s` between the occurrences of `c`, after a partial piece `cur`.
pub open spec fn split_from(s: Seq<char>, c: char, cur: Seq<char>) -> Seq<Seq<char>>
    decreases s.len(),
{
    if s.len() == 0 {
        seq![cur]
    } else if s[0] == c {
        seq![cur] + split_from(s.drop_first(), c, seq![])
    } else {
        split_from(s.drop_first(), c, cur.push(s[0]))
    }
}

/// `str::split(c)`: always at least one piece.
pub open spec fn split_on(s: Seq<char>, c: char) -> Seq<Seq<char>> {
    split_from(s, c, seq![])
}

/// The first index at or after `i` that holds `c`.
pub open spec fn first_from(s: Seq<char>, c: char, i: int) -> Option<int>
    decreases s.len() - i,
{
    if i < 0 || i >= s.len() {
        None
    } else if s[i] == c {
        Some(i)
    } else {
        first_from(s, c, i + 1)
    }
}

/// `str::find(c)`, as a character index.
pub open spec fn first_index(s: Seq<char>, c: char) -> Option<int> {
    first_from(s, c, 0)
}

/// The last index below `i` that holds `c`.
pub open spec fn last_before(s: Seq<char>, c: char, i: int) -> Option<int>
    decreases i,
{
    if i <= 0 || i > s.len() {
        None
    } else if s[i - 1] == c {
        Some(i - 1)
    } else {
        last_before(s, c, i - 1)
    }
}

/// `str::rfind(c)`, as a character index.
pub open spec fn last_index(s: Seq<char>, c: char) -> Option<int> {
    last_before(s, c, s.len() as int)
}

pub open spec fn occurs_at(s: Seq<char>, p: Seq<char>, i: int) -> bool {
    0 <= i && i + p.len() <= s.len() && s.subrange(i, i + p.len()) == p
}

/// `str::contains(p)`.
pub open spec fn has_infix(s: Seq<char>, p: Seq<char>) -> bool {
    exists|i: int| occurs_at(s, p, i)
}

/// `str::starts_with(p)`.
pub open spec fn has_prefix(s: Seq<char>, p: Seq<char>) -> bool {
    p.len() <= s.len() && s.take(p.len() as int) == p
}

/// `char::to_ascii_lowercase`.
pub open spec fn ascii_lower(c: char) -> char {
    if 'A' <= c <= 'Z' {
        ((c as u32) + 32) as char
    } else {
        c
    }
}

/// `str::eq_ignore_ascii_case`.
pub open spec fn eq_ignore_ascii_case(a: Seq<char>, b: Seq<char>) -> bool {
    a.len() == b.len() && forall|i: int| 0 <= i < a.len() ==> ascii_lower(a[i]) == ascii_lower(b[i])
}

pub open spec fn digit_char(d: nat) -> char {
    ((d + 48) as u32) as char
}

/// The decimal digits of `n`, as `format!("{n}")` writes them.
pub open spec fn decimal(n: nat) -> Seq<char>
    decreases n,
{
    if n < 10 {
        seq![digit_char(n)]
    } else {
        decimal(n / 10).push(digit_char(n % 10))
    }
}

/// `s` with every `c` replaced by `with` (`str::replace` with a `char` pattern).
pub open spec fn replace_char(s: Seq<char>, c: char, with: Seq<char>) -> Seq<char>
    decreases s.len(),
{
    if s.len() == 0 {
        seq![]
    } else {
        (if s[0] == c {
            with
        } else {
            seq![s[0]]
        }) + replace_char(s.drop_first(), c, with)
    }
}

/// The character sequences held by a vector of character vectors.
pub open spec fn views(v: Seq<Vec<char>>) -> Seq<Seq<char>> {
    v.map_values(|x: Vec<char>| x@)
}

/// The character sequences held by a vector of strings.
pub open spec fn string_views(v: Seq<String>) -> Seq<Seq<char>> {
    v.map_values(|x: String| x@)
}

/// The character sequence an optional character vector holds.
pub open spec fn opt_chars(o: Option<Vec<char>>) -> Option<Seq<char>> {
    match o {
        Some(v) => Some(v@),
        None => None,
    }
}

/// The character sequence an optional string holds.
pub open spec fn opt_view(o: Option<String>) -> Option<Seq<char>> {
    match o {
        Some(s) => Some(s@),
        None => None,
    }
}

// ---------------------------------------------------------------------------
// Lemmas
// ---------------------------------------------------------------------------

pub proof fn lemma_trim_start_at(s: Seq<char>, p: spec_fn(char) -> bool, a: int)
    requires
        0 <= a <= s.len(),
        forall|i: int| 0 <= i < a ==> p(#[trigger] s[i]),
        a == s.len() || !p(s[a]),
    ensures
        trim_start_by(s, p) == s.subrange(a, s.len() as int),
    decreases a,
{
    if a == 0 {
        if s.len() > 0 {
            assert(!p(s[0]));
        }
        assert(s.subrange(0, s.len() as int) =~= s);
    } else {
        let t = s.drop_first();
        assert forall|i: int| 0 <= i < a - 1 implies p(#[trigger] t[i]) by {
            assert(t[i] == s[i + 1]);
        }
        assert(p(s[0]));
        if a - 1 < t.len() {
            assert(t[a - 1] == s[a]);
        }
        lemma_trim_start_at(t, p, a - 1);
        assert(t.subrange(a - 1, t.len() as int) =~= s.subrange(a, s.len() as int));
    }
}

pub proof fn lemma_trim_end_at(s: Seq<char>, p: spec_fn(char) -> bool, b: int)
    requires
        0 <= b <= s.len(),
        forall|i: int| b <= i < s.len() ==> p(#[trigger] s[i]),
        b == 0 || !p(s[b - 1]),
    ensures
        trim_end_by(s, p) == s.subrange(0, b),
    decreases s.len() - b,
{
    if b == s.len() {
        if s.len() > 0 {
            assert(!p(s.last()));
        }
        assert(s.subrange(0, b) =~= s);
    } else {
        let t = s.drop_last();
        assert(p(s.last()));
        assert forall|i: int| b <= i < t.len() implies p(#[trigger] t[i]) by {
            assert(t[i] == s[i]);
        }
        if b > 0 {
            assert(t[b - 1] == s[b - 1]);
        }
        lemma_trim_end_at(t, p, b);
        assert(t.subrange(0, b) =~= s.subrange(0, b));
    }
}

/// Trimming `s` leaves the range `a..b` when everything outside it satisfies
/// `p` and its ends do not.
pub proof fn lemma_trim_range(s: Seq<char>, p: spec_fn(char) -> bool, a: int, b: int)
    requires
        0 <= a <= b <= s.len(),
        forall|i: int| 0 <= i < a ==> p(#[trigger] s[i]),
        forall|i: int| b <= i < s.len() ==> p(#[trigger] s[i]),
        a < b ==> !p(s[a]) && !p(s[b - 1]),
        a == b ==> forall|i: int| 0 <= i < s.len() ==> p(#[trigger] s[i]),
    ensures
        trim_end_by(trim_start_by(s, p), p) == s.subrange(a, b),
{
    if a < b {
        lemma_trim_start_at(s, p, a);
        let t = s.subrange(a, s.len() as int);
        assert forall|i: int| b - a <= i < t.len() implies p(#[trigger] t[i]) by {
            assert(t[i] == s[i + a]);
        }
        assert(t[b - a - 1] == s[b - 1]);
        lemma_trim_end_at(t, p, b - a);
        assert(t.subrange(0, b - a) =~= s.subrange(a, b));
    } else {
        lemma_trim_start_at(s, p, s.len() as int);
        let t = s.subrange(s.len() as int, s.len() as int);
        lemma_trim_end_at(t, p, 0);
        assert(t.subrange(0, 0) =~= s.subrange(a, b));
    }
}

/// The first `c` at or after `i` is at `k` when none comes between.
pub proof fn lemma_first_from(s: Seq<char>, c: char, i: int, k: int)
    requires
        0 <= i <= k < s.len(),
        s[k] == c,
        forall|j: int| i <= j < k ==> s[j] != c,
    ensures
        first_from(s, c, i) == Some(k),
    decreases k - i,
{
    if i < k {
        lemma_first_from(s, c, i + 1, k);
    }
}

/// Splitting `x + "\n" + y` into lines, after a partial line `cur`, when `x`
/// holds no newline.
pub proof fn lemma_lines_step(x: Seq<char>, y: Seq<char>, cur: Seq<char>)
    requires
        !x.contains('\n'),
    ensures
        lines_from(x + seq!['\n'] + y, cur) == seq![strip_cr(cur + x)] + lines_from(y, seq![]),
    decreases x.len(),
{
    let s = x + seq!['\n'] + y;
    if x.len() == 0 {
        assert(s[0] == '\n');
        assert(s.drop_first() =~= y);
        assert(cur + x =~= cur);
    } else {
        assert(x[0] != '\n');
        assert(s[0] == x[0]);
        assert(!x.drop_first().contains('\n')) by {
            if x.drop_first().contains('\n') {
                let j = choose|j: int| 0 <= j < x.drop_first().len() && x.drop_first()[j] == '\n';
                assert(x[j + 1] == '\n');
            }
        }
        assert(s.drop_first() =~= x.drop_first() + seq!['\n'] + y);
        lemma_lines_step(x.drop_first(), y, cur.push(x[0]));
        assert(cur.push(x[0]) + x.drop_first() =~= cur + x);
    }
}

/// Trimming by `p` ignores a last character that satisfies `p`.
pub proof fn lemma_trim_ignores_last(s: Seq<char>, p: spec_fn(char) -> bool)
    requires
        s.len() > 0,
        p(s.last()),
    ensures
        trim_end_by(trim_start_by(s.drop_last(), p), p) == trim_end_by(trim_start_by(s, p), p),
    decreases s.len(),
{
    let d = s.drop_last();
    if s.len() == 1 {
        assert(d =~= Seq::<char>::empty());
        assert(s.drop_first() =~= Seq::<char>::empty());
    } else if p(s[0]) {
        assert(d[0] == s[0]);
        assert(d.drop_first() =~= s.drop_first().drop_last());
        lemma_trim_ignores_last(s.drop_first(), p);
    } else {
        assert(d[0] == s[0]);
        assert(trim_start_by(s, p) == s);
        assert(trim_start_by(d, p) == d);
    }
}

/// A piece without `'\n'` after a partial line `cur` is read as one line.
proof fn lemma_one_line(x: Seq<char>, cur: Seq<char>)
    requires
        !x.contains('\n'),
        (cur + x).len() > 0,
    ensures
        lines_from(x, cur) == seq![cur + x],
    decreases x.len(),
{
    if x.len() == 0 {
        assert(cur + x =~= cur);
    } else {
        assert(x[0] != '\n');
        assert(!x.drop_first().contains('\n')) by {
            if x.drop_first().contains('\n') {
                let j = choose|j: int| 0 <= j < x.drop_first().len() && x.drop_first()[j] == '\n';
                assert(x[j + 1] == '\n');
            }
        }
        lemma_one_line(x.drop_first(), cur.push(x[0]));
        assert(cur.push(x[0]) + x.drop_first() =~= cur + x);
    }
}

/// Law: a non-empty text without `'\n'` is one line, whether or not a
/// newline ends it: a last line is kept though no `'\n'` follows it.
pub proof fn lemma_unterminated_line_is_a_line(x: Seq<char>)
    requires
        x.len() > 0,
        !x.contains('\n'),
    ensures
        text_lines(x) == seq![x],
        text_lines(x.push('\n')) == seq![strip_cr(x)],
{
    lemma_one_line(x, seq![]);
    assert(seq![] + x =~= x);
    lemma_lines_step(x, seq![], seq![]);
    assert(x + seq!['\n'] + seq![] =~= x.push('\n'));
    assert(lines_from(seq![], seq![]) =~= Seq::<Seq<char>>::empty());
}

/// A newline added at the end of `s` either closes the pending last line
/// (without its `'\r'`) or, when no line is pending, adds an empty line.
pub proof fn lemma_lines_closed(s: Seq<char>, cur: Seq<char>)
    ensures
        ({
            let l = lines_from(s, cur);
            let m = lines_from(s.push('\n'), cur);
            ||| m == l.push(seq![])
            ||| l.len() > 0 && m == l.drop_last().push(strip_cr(l.last()))
        }),
    decreases s.len(),
{
    let l = lines_from(s, cur);
    let m = lines_from(s.push('\n'), cur);
    let t = s.push('\n');
    if s.len() == 0 {
        assert(t[0] == '\n');
        assert(t.drop_first() =~= Seq::<char>::empty());
        assert(lines_from(t.drop_first(), seq![]) =~= Seq::<Seq<char>>::empty());
        assert(m =~= seq![strip_cr(cur)]);
        if cur.len() == 0 {
            assert(cur =~= Seq::<char>::empty());
            assert(l =~= Seq::<Seq<char>>::empty());
            assert(m =~= l.push(seq![]));
        } else {
            assert(m =~= l.drop_last().push(strip_cr(l.last())));
        }
    } else {
        let rest = s.drop_first();
        assert(t[0] == s[0]);
        assert(t.drop_first() =~= rest.push('\n'));
        if s[0] == '\n' {
            lemma_lines_closed(rest, seq![]);
            let r = lines_from(rest, seq![]);
            let r2 = lines_from(rest.push('\n'), seq![]);
            assert(l == seq![strip_cr(cur)] + r);
            assert(m == seq![strip_cr(cur)] + r2);
            if r2 == r.push(seq![]) {
                assert(m =~= l.push(seq![]));
            } else {
                assert(m =~= l.drop_last().push(strip_cr(l.last())));
            }
        } else {
            lemma_lines_closed(rest, cur.push(s[0]));
        }
    }
}

/// A character sequence without `c` is unchanged by replacing `c`.
pub proof fn lemma_replace_absent(s: Seq<char>, c: char, with: Seq<char>)
    requires
        !s.contains(c),
    ensures
        replace_char(s, c, with) == s,
    decreases s.len(),
{
    if s.len() > 0 {
        assert(s[0] != c);
        assert(!s.drop_first().contains(c)) by {
            if s.drop_first().contains(c) {
                let j = choose|j: int| 0 <= j < s.drop_first().len() && s.drop_first()[j] == c;
                assert(s[j + 1] == c);
            }
        }
        lemma_replace_absent(s.drop_first(), c, with);
        assert(seq![s[0]] + s.drop_first() =~= s);
    }
}

// ---------------------------------------------------------------------------
// Executable helpers
// ---------------------------------------------------------------------------

/// `String::push`: the contract claims that the string ends with `c` after
/// the call and is otherwise unchanged.
#[verifier::external_body]
fn push_char(s: &mut String, c: char)
    ensures
        final(s)@ == old(s)@.push(c),
{
    s.push(c)
}

/// The characters of `s`, in order.
pub fn chars_of(s: &str) -> (r: Vec<char>)
    ensures
        r@ == s@,
{
    let mut r: Vec<char> = Vec::new();
    for c in it: s.chars()
        invariant
            r@ == it.seq().take(it.index() as int),
    {
        r.push(c);
    }
    r
}

/// The string made of the characters `cs`.
pub fn string_of(cs: &[char]) -> (r: String)
    ensures
        r@ == cs@,
{
    let mut r = String::new();
    let mut i: usize = 0;
    while i < cs.len()
        invariant
            i <= cs.len(),
            r@ == cs@.take(i as int),
        decreases cs.len() - i,
    {
        push_char(&mut r, cs[i]);
        i = i + 1;
        assert(r@ =~= cs@.take(i as int));
    }
    assert(cs@.take(i as int) =~= cs@);
    r
}

/// The characters of `cs` in `a..b`.
pub fn slice_of(cs: &[char], a: usize, b: usize) -> (r: Vec<char>)
    requires
        a <= b <= cs@.len(),
    ensures
        r@ == cs@.subrange(a as int, b as int),
{
    let mut r: Vec<char> = Vec::new();
    let mut i = a;
    while i < b
        invariant
            a <= i <= b <= cs@.len(),
            r@ == cs@.subrange(a as int, i as int),
        decreases b - i,
    {
        r.push(cs[i]);
        i = i + 1;
        assert(r@ =~= cs@.subrange(a as int, i as int));
    }
    r
}

/// `a` followed by `b`.
pub fn join(a: &[char], b: &[char]) -> (r: Vec<char>)
    ensures
        r@ == a@ + b@,
{
    let mut r = slice_of(a, 0, a.len());
    let mut i: usize = 0;
    assert(r@ =~= a@ + b@.take(0));
    while i < b.len()
        invariant
            i <= b.len(),
            r@ == a@ + b@.take(i as int),
        decreases b.len() - i,
    {
        r.push(b[i]);
        i = i + 1;
        assert(r@ =~= a@ + b@.take(i as int));
    }
    assert(b@.take(i as int) =~= b@);
    r
}

/// `char::is_whitespace`.
pub fn is_whitespace(c: char) -> (r: bool)
    ensures
        r == is_ws(c),
{
    let u = c as u32;
    (9 <= u && u <= 13) || u == 32 || u == 0x85 || u == 0xa0 || u == 0x1680 || (0x2000 <= u && u
        <= 0x200a) || u == 0x2028 || u == 0x2029 || u == 0x202f || u == 0x205f || u == 0x3000
}

/// `str::trim`.
pub fn trim(cs: &[char]) -> (r: Vec<char>)
    ensures
        r@ == ws_trimmed(cs@),
{
    let n = cs.len();
    let mut a: usize = 0;
    while a < n && is_whitespace(cs[a])
        invariant
            a <= n == cs@.len(),
            forall|i: int| 0 <= i < a ==> is_ws(#[trigger] cs@[i]),
        decreases n - a,
    {
        a = a + 1;
    }
    let mut b: usize = n;
    while b > a && is_whitespace(cs[b - 1])
        invariant
            a <= b <= n == cs@.len(),
            forall|i: int| b <= i < n ==> is_ws(#[trigger] cs@[i]),
        decreases b - a,
    {
        b = b - 1;
    }
    proof {
        assert forall|i: int| 0 <= i < a implies (#[trigger] ws()(cs@[i])) by {}
        assert forall|i: int| b <= i < n implies (#[trigger] ws()(cs@[i])) by {}
        if a == b {
            assert forall|i: int| 0 <= i < n implies (#[trigger] ws()(cs@[i])) by {
                if i >= a {
                    assert(b <= i);
                }
            }
        }
        lemma_trim_range(cs@, ws(), a as int, b as int);
    }
    slice_of(cs, a, b)
}

/// `str::trim_matches(c)`.
pub fn trim_matches(cs: &[char], c: char) -> (r: Vec<char>)
    ensures
        r@ == char_trimmed(cs@, c),
{
    let n = cs.len();
    let mut a: usize = 0;
    while a < n && cs[a] == c
        invariant
            a <= n == cs@.len(),
            forall|i: int| 0 <= i < a ==> #[trigger] cs@[i] == c,
        decreases n - a,
    {
        a = a + 1;
    }
    let mut b: usize = n;
    while b > a && cs[b - 1] == c
        invariant
            a <= b <= n == cs@.len(),
            forall|i: int| b <= i < n ==> #[trigger] cs@[i] == c,
        decreases b - a,
    {
        b = b - 1;
    }
    proof {
        assert forall|i: int| 0 <= i < a implies (#[trigger] is_char(c)(cs@[i])) by {}
        assert forall|i: int| b <= i < n implies (#[trigger] is_char(c)(cs@[i])) by {}
        if a == b {
            assert forall|i: int| 0 <= i < n implies (#[trigger] is_char(c)(cs@[i])) by {
                if i >= a {
                    assert(b <= i);
                }
            }
        }
        lemma_trim_range(cs@, is_char(c), a as int, b as int);
    }
    slice_of(cs, a, b)
}

/// `str::find(c)`, as a character index.
pub fn find_char(cs: &[char], c: char) -> (r: Option<usize>)
    ensures
        r matches Some(i) ==> first_index(cs@, c) == Some(i as int) && i < cs@.len() && cs@[i as int]
            == c,
        r is None ==> first_index(cs@, c) is None,
{
    let mut i: usize = 0;
    while i < cs.len()
        invariant
            i <= cs@.len(),
            first_from(cs@, c, 0) == first_from(cs@, c, i as int),
        decreases cs.len() - i,
    {
        if cs[i] == c {
            return Some(i);
        }
        i = i + 1;
    }
    None
}

/// `str::rfind(c)`, as a character index.
pub fn rfind_char(cs: &[char], c: char) -> (r: Option<usize>)
    ensures
        r matches Some(i) ==> last_index(cs@, c) == Some(i as int) && i < cs@.len() && cs@[i as int]
            == c,
        r is None ==> last_index(cs@, c) is None,
{
    let mut i: usize = cs.len();
    while i > 0
        invariant
            i <= cs@.len(),
            last_before(cs@, c, cs@.len() as int) == last_before(cs@, c, i as int),
        decreases i,
    {
        if cs[i - 1] == c {
            return Some(i - 1);
        }
        i = i - 1;
    }
    None
}

/// Whether `a` and `b` hold the same characters.
pub fn same(a: &[char], b: &[char]) -> (r: bool)
    ensures
        r == (a@ == b@),
{
    if a.len() != b.len() {
        return false;
    }
    let mut i: usize = 0;
    while i < a.len()
        invariant
            i <= a@.len() == b@.len(),
            forall|j: int| 0 <= j < i ==> a@[j] == b@[j],
        decreases a.len() - i,
    {
        if a[i] != b[i] {
            return false;
        }
        i = i + 1;
    }
    assert(a@ =~= b@);
    true
}

/// `str::starts_with(p)`.
pub fn starts_with(cs: &[char], p: &[char]) -> (r: bool)
    ensures
        r == has_prefix(cs@, p@),
{
    if p.len() > cs.len() {
        return false;
    }
    let mut i: usize = 0;
    while i < p.len()
        invariant
            i <= p@.len() <= cs@.len(),
            forall|j: int| 0 <= j < i ==> cs@[j] == p@[j],
        decreases p.len() - i,
    {
        if cs[i] != p[i] {
            assert(cs@.take(p@.len() as int)[i as int] != p@[i as int]);
            return false;
        }
        i = i + 1;
    }
    assert(cs@.take(p@.len() as int) =~= p@);
    true
}

/// Whether `p` occurs in `cs` at index `i`.
fn occurs(cs: &[char], p: &[char], i: usize) -> (r: bool)
    requires
        i + p@.len() <= cs@.len(),
    ensures
        r == occurs_at(cs@, p@, i as int),
{
    let n = cs.len();
    let mut j: usize = 0;
    while j < p.len()
        invariant
            n == cs@.len(),
            j <= p@.len(),
            i + p@.len() <= cs@.len(),
            forall|k: int| 0 <= k < j ==> cs@[i + k] == p@[k],
        decreases p.len() - j,
    {
        if cs[i + j] != p[j] {
            assert(cs@.subrange(i as int, i + p@.len())[j as int] != p@[j as int]);
            return false;
        }
        j = j + 1;
    }
    assert(cs@.subrange(i as int, i + p@.len()) =~= p@);
    true
}

/// `str::contains(p)`.
pub fn contains(cs: &[char], p: &[char]) -> (r: bool)
    ensures
        r == has_infix(cs@, p@),
{
    if p.len() > cs.len() {
        return false;
    }
    let last = cs.len() - p.len();
    let mut i: usize = 0;
    loop
        invariant
            i <= last,
            last + p@.len() == cs@.len(),
            forall|k: int| 0 <= k < i ==> !occurs_at(cs@, p@, k),
        ensures
            forall|k: int| 0 <= k <= last ==> !occurs_at(cs@, p@, k),
        decreases last - i,
    {
        if occurs(cs, p, i) {
            return true;
        }
        if i == last {
            break;
        }
        i = i + 1;
    }
    assert forall|k: int| !occurs_at(cs@, p@, k) by {
        if 0 <= k && k + p@.len() <= cs@.len() {
            assert(k <= last);
        }
    }
    false
}

/// `str::eq_ignore_ascii_case`.
pub fn eq_ignore_case(a: &[char], b: &[char]) -> (r: bool)
    ensures
        r == eq_ignore_ascii_case(a@, b@),
{
    if a.len() != b.len() {
        return false;
    }
    let mut i: usize = 0;
    while i < a.len()
        invariant
            i <= a@.len() == b@.len(),
            forall|j: int| 0 <= j < i ==> ascii_lower(a@[j]) == ascii_lower(b@[j]),
        decreases a.len() - i,
    {
        if to_ascii_lower(a[i]) != to_ascii_lower(b[i]) {
            return false;
        }
        i = i + 1;
    }
    true
}

/// `char::to_ascii_lowercase`.
fn to_ascii_lower(c: char) -> (r: char)
    ensures
        r == ascii_lower(c),
{
    if 'A' <= c && c <= 'Z' {
        ((c as u32 + 32) as u8) as char
    } else {
        c
    }
}

/// The decimal digits of `n`.
pub fn decimal_chars(n: u64) -> (r: Vec<char>)
    ensures
        r@ == decimal(n as nat),
    decreases n,
{
    let d = ((n % 10) as u8 + 48) as char;
    if n < 10 {
        vec![d]
    } else {
        let mut r = decimal_chars(n / 10);
        r.push(d);
        r
    }
}

/// The lines of `cs` (`str::lines`).
pub fn lines(cs: &[char]) -> (r: Vec<Vec<char>>)
    ensures
        views(r@) == text_lines(cs@),
{
    let n = cs.len();
    let mut out: Vec<Vec<char>> = Vec::new();
    let mut cur: Vec<char> = Vec::new();
    let mut i: usize = 0;
    assert(cs@.subrange(0, n as int) =~= cs@);
    assert(views(out@) + lines_from(cs@, cur@) =~= text_lines(cs@));
    while i < n
        invariant
            i <= n == cs@.len(),
            views(out@) + lines_from(cs@.subrange(i as int, n as int), cur@) == text_lines(
                cs@,
            ),
        decreases n - i,
    {
        let ghost rest = cs@.subrange(i as int, n as int);
        assert(rest.drop_first() =~= cs@.subrange(i + 1, n as int));
        let ghost before = views(out@);
        if cs[i] == '\n' {
            let line = if cur.len() > 0 && cur[cur.len() - 1] == '\r' {
                slice_of(&cur, 0, cur.len() - 1)
            } else {
                slice_of(&cur, 0, cur.len())
            };
            assert(line@ == strip_cr(cur@)) by {
                assert(cur@.subrange(0, cur@.len() as int) =~= cur@);
                assert(cur@.subrange(0, cur@.len() - 1) =~= cur@.drop_last());
            }
            out.push(line);
            assert(views(out@) =~= before.push(strip_cr(cur@)));
            assert(before + (seq![strip_cr(cur@)] + lines_from(rest.drop_first(), seq![]))
                =~= views(out@) + lines_from(rest.drop_first(), seq![]));
            cur = Vec::new();
            assert(cur@ =~= seq![]);
        } else {
            cur.push(cs[i]);
        }
        i = i + 1;
    }
    let ghost before = views(out@);
    if cur.len() > 0 {
        out.push(cur);
        assert(views(out@) =~= before + lines_from(cs@.subrange(n as int, n as int), cur@));
    } else {
        assert(views(out@) =~= before + lines_from(cs@.subrange(n as int, n as int), cur@));
    }
    out
}

/// The pieces of `cs` between occurrences of `c` (`str::split(c)`).
pub fn split(cs: &[char], c: char) -> (r: Vec<Vec<char>>)
    ensures
        views(r@) == split_on(cs@, c),
{
    let n = cs.len();
    let mut out: Vec<Vec<char>> = Vec::new();
    let mut cur: Vec<char> = Vec::new();
    let mut i: usize = 0;
    assert(cs@.subrange(0, n as int) =~= cs@);
    assert(views(out@) + split_from(cs@, c, cur@) =~= split_on(cs@, c));
    while i < n
        invariant
            i <= n == cs@.len(),
            views(out@) + split_from(cs@.subrange(i as int, n as int), c, cur@) == split_on(
                cs@,
                c,
            ),
        decreases n - i,
    {
        let ghost rest = cs@.subrange(i as int, n as int);
        assert(rest.drop_first() =~= cs@.subrange(i + 1, n as int));
        let ghost before = views(out@);
        if cs[i] == c {
            let piece = slice_of(&cur, 0, cur.len());
            assert(piece@ =~= cur@);
            out.push(piece);
            assert(views(out@) =~= before.push(cur@));
            assert(before + (seq![cur@] + split_from(rest.drop_first(), c, seq![]))
                =~= views(out@) + split_from(rest.drop_first(), c, seq![]));
            cur = Vec::new();
            assert(cur@ =~= seq![]);
        } else {
            cur.push(cs[i]);
        }
        i = i + 1;
    }
    let ghost before = views(out@);
    out.push(cur);
    assert(views(out@) =~= before + split_from(cs@.subrange(n as int, n as int), c, cur@));
    out
}

} // verus!
