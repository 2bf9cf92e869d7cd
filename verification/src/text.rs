//! Text helpers: the small string operations that feature lists, file names and
//! crate names need, each over the sequence of characters of the text.

use vstd::prelude::*;

verus! {

/// The characters of `s`, in order.
pub fn chars_of(s: &str) -> (r: Vec<char>)
    ensures
        r@ == s@,
{
    let mut r: Vec<char> = Vec::new();
    for c in it: s.chars()
        invariant
            it.seq() == s@,
            r@ == s@.take(it.index() as int),
    {
        r.push(c);
    }
    r
}

/// Whether `c` occurs in `s`.
pub fn contains_char(s: &str, c: char) -> (r: bool)
    ensures
        r == s@.contains(c),
{
    let chars = chars_of(s);
    let mut i: usize = 0;
    while i < chars.len()
        invariant
            chars@ == s@,
            i <= chars.len(),
            forall|j: int| 0 <= j < i ==> s@[j] != c,
        decreases chars.len() - i,
    {
        if chars[i] == c {
            return true;
        }
        i += 1;
    }
    false
}

/// The contents of a list of strings.
pub open spec fn texts(list: Seq<String>) -> Seq<Seq<char>> {
    list.map_values(|s: String| s@)
}

/// The prefix that marks a feature value as the name of a dependency.
pub open spec fn dep_prefix() -> Seq<char> {
    seq!['d', 'e', 'p', ':']
}

/// `s` without any leading repetition of `dep:`.
pub open spec fn without_dep_prefix(s: Seq<char>) -> Seq<char>
    decreases s.len(),
{
    if s.len() >= 4 && s.take(4) == dep_prefix() {
        without_dep_prefix(s.skip(4))
    } else {
        s
    }
}

/// Strips every leading `dep:` from `s`.
pub fn trim_dep_prefix<'a>(s: &'a str) -> (r: &'a str)
    ensures
        r@ == without_dep_prefix(s@),
{
    let chars = chars_of(s);
    let n: usize = chars.len();
    let mut i: usize = 0;
    proof {
        assert(s@.skip(0) =~= s@);
    }
    while n - i >= 4 && chars[i] == 'd' && chars[i + 1] == 'e' && chars[i + 2] == 'p' && chars[i
        + 3] == ':'
        invariant
            chars@ == s@,
            n == chars.len(),
            i <= n,
            without_dep_prefix(s@.skip(i as int)) == without_dep_prefix(s@),
        decreases n - i,
    {
        proof {
            assert(s@.skip(i as int).take(4) =~= dep_prefix());
            assert(s@.skip(i as int).skip(4) =~= s@.skip(i + 4));
        }
        i += 4;
    }
    proof {
        let rest = s@.skip(i as int);
        if rest.len() >= 4 && rest.take(4) == dep_prefix() {
            assert(rest.take(4)[0] == 'd' && rest.take(4)[1] == 'e' && rest.take(4)[2] == 'p'
                && rest.take(4)[3] == ':');
        }
        assert(s@.subrange(i as int, n as int) =~= rest);
    }
    s.substring_char(i, n)
}

/// The characters at which a feature value is cut into a dependency and a feature.
pub open spec fn is_separator(c: char) -> bool {
    c == '/' || c == '?'
}

/// How many characters of `s` come before its first separator.
pub open spec fn run_len(s: Seq<char>) -> nat
    decreases s.len(),
{
    if s.len() == 0 || is_separator(s[0]) {
        0
    } else {
        1 + run_len(s.skip(1))
    }
}

/// The maximal non-empty pieces of `s` without a separator, in order.
pub open spec fn tokens(s: Seq<char>) -> Seq<Seq<char>>
    decreases s.len(),
{
    if s.len() == 0 {
        Seq::empty()
    } else if run_len(s) == 0 {
        tokens(s.skip(1))
    } else if run_len(s) >= s.len() {
        seq![s]
    } else {
        seq![s.take(run_len(s) as int)] + tokens(s.skip(run_len(s) as int))
    }
}

/// The run before the first separator is what a scan finds.
proof fn lemma_run_len(s: Seq<char>, k: int)
    requires
        0 <= k <= s.len(),
        forall|j: int| 0 <= j < k ==> !is_separator(s[j]),
        k == s.len() || is_separator(s[k]),
    ensures
        run_len(s) == k,
    decreases s.len(),
{
    if k > 0 {
        assert forall|j: int| 0 <= j < k - 1 implies !is_separator(s.skip(1)[j]) by {
            assert(s.skip(1)[j] == s[j + 1]);
        }
        if k < s.len() {
            assert(s.skip(1)[k - 1] == s[k]);
        }
        lemma_run_len(s.skip(1), k - 1);
    }
}

/// Cuts `s` at every `/` and `?` and keeps the pieces that are not empty.
pub fn split_tokens(s: &str) -> (r: Vec<String>)
    ensures
        texts(r@) == tokens(s@),
{
    let chars = chars_of(s);
    let n: usize = chars.len();
    let mut r: Vec<String> = Vec::new();
    let mut i: usize = 0;
    proof {
        assert(s@.skip(0) =~= s@);
        assert(texts(r@) + tokens(s@) =~= tokens(s@));
    }
    while i < n
        invariant
            chars@ == s@,
            n == chars.len(),
            i <= n,
            texts(r@) + tokens(s@.skip(i as int)) == tokens(s@),
        decreases n - i,
    {
        let mut k: usize = i;
        while k < n && chars[k] != '/' && chars[k] != '?'
            invariant
                chars@ == s@,
                n == chars.len(),
                i <= k <= n,
                forall|j: int| i <= j < k ==> !is_separator(s@[j]),
            decreases n - k,
        {
            k += 1;
        }
        let ghost rest = s@.skip(i as int);
        proof {
            assert forall|j: int| 0 <= j < k - i implies !is_separator(rest[j]) by {
                assert(rest[j] == s@[i + j]);
            }
            lemma_run_len(rest, k - i);
        }
        if k == i {
            proof {
                assert(rest.skip(1) =~= s@.skip(i + 1));
            }
            i += 1;
        } else {
            let piece: String = s.substring_char(i, k).to_string();
            let ghost before = r@;
            r.push(piece);
            proof {
                assert(piece@ =~= rest.take(k - i));
                assert(texts(r@) =~= texts(before).push(piece@));
                assert(rest.skip(k - i) =~= s@.skip(k as int));
                if k == n {
                    assert(rest.take(k - i) =~= rest);
                    assert(tokens(s@.skip(k as int)) =~= Seq::empty());
                }
                assert(texts(r@) + tokens(s@.skip(k as int)) =~= texts(before) + tokens(rest));
            }
            i = k;
        }
    }
    proof {
        assert(tokens(s@.skip(n as int)) =~= Seq::empty());
        assert(texts(r@) =~= tokens(s@));
    }
    r
}

/// Whether `part` occurs in `s` as a contiguous piece.
pub open spec fn occurs(s: Seq<char>, part: Seq<char>) -> bool {
    exists|i: int|
        0 <= i <= s.len() - part.len() && #[trigger] s.subrange(i, i + part.len()) == part
}

/// Whether the text of `part` occurs in `s`.
pub fn contains_text(s: &str, part: &str) -> (r: bool)
    ensures
        r == occurs(s@, part@),
{
    let hay = chars_of(s);
    let pin = chars_of(part);
    if hay.len() < pin.len() {
        return false;
    }
    let last: usize = hay.len() - pin.len();
    let mut i: usize = 0;
    while i <= last
        invariant
            hay@ == s@,
            pin@ == part@,
            pin.len() <= hay.len(),
            last == hay.len() - pin.len(),
            i <= last + 1,
            forall|k: int| 0 <= k < i ==> #[trigger] s@.subrange(k, k + part@.len()) != part@,
        decreases last + 1 - i,
    {
        let mut j: usize = 0;
        while j < pin.len() && hay[i + j] == pin[j]
            invariant
                hay@ == s@,
                pin@ == part@,
                i + pin.len() <= hay.len(),
                j <= pin.len(),
                forall|k: int| 0 <= k < j ==> s@[i + k] == part@[k],
            decreases pin.len() - j,
        {
            j += 1;
        }
        if j == pin.len() {
            proof {
                assert(s@.subrange(i as int, i + part@.len()) =~= part@);
            }
            return true;
        }
        proof {
            assert(s@.subrange(i as int, i + part@.len())[j as int] == s@[i + j]);
        }
        if i == last {
            return false;
        }
        i += 1;
    }
    false
}

/// The order of strings: by the first character that differs, a proper prefix first.
pub open spec fn text_before(a: Seq<char>, b: Seq<char>) -> bool
    decreases a.len(),
{
    if b.len() == 0 {
        false
    } else if a.len() == 0 {
        true
    } else if a[0] != b[0] {
        (a[0] as int) < (b[0] as int)
    } else {
        text_before(a.skip(1), b.skip(1))
    }
}

/// Whether `a` comes before `b`.
pub fn is_before(a: &str, b: &str) -> (r: bool)
    ensures
        r == text_before(a@, b@),
{
    let x = chars_of(a);
    let y = chars_of(b);
    let mut i: usize = 0;
    proof {
        assert(a@.skip(0) =~= a@);
        assert(b@.skip(0) =~= b@);
    }
    while i < x.len() && i < y.len() && x[i] == y[i]
        invariant
            x@ == a@,
            y@ == b@,
            i <= x.len(),
            i <= y.len(),
            text_before(a@.skip(i as int), b@.skip(i as int)) == text_before(a@, b@),
        decreases x.len() - i,
    {
        proof {
            assert(a@.skip(i as int).skip(1) =~= a@.skip(i + 1));
            assert(b@.skip(i as int).skip(1) =~= b@.skip(i + 1));
        }
        i += 1;
    }
    if i >= y.len() {
        false
    } else if i >= x.len() {
        true
    } else {
        let c: char = x[i];
        let d: char = y[i];
        c < d
    }
}

/// No text comes before itself, and of two texts at most one comes before the other.
pub proof fn text_order_is_strict(a: Seq<char>, b: Seq<char>)
    ensures
        !text_before(a, a),
        text_before(a, b) ==> !text_before(b, a),
    decreases a.len(),
{
    if a.len() > 0 {
        if b.len() > 0 {
            text_order_is_strict(a.skip(1), b.skip(1));
        } else {
            text_order_is_strict(a.skip(1), b);
        }
    }
}

/// Two texts neither of which comes before the other are the same.
pub proof fn text_order_is_total(a: Seq<char>, b: Seq<char>)
    requires
        !text_before(a, b),
        !text_before(b, a),
    ensures
        a == b,
    decreases a.len(),
{
    if a.len() > 0 && b.len() > 0 {
        text_order_is_total(a.skip(1), b.skip(1));
        assert(a =~= seq![a[0]] + a.skip(1));
        assert(b =~= seq![b[0]] + b.skip(1));
    } else {
        assert(a =~= b);
    }
}

/// The order of texts is transitive.
pub proof fn text_order_is_transitive(a: Seq<char>, b: Seq<char>, c: Seq<char>)
    requires
        text_before(a, b),
        text_before(b, c),
    ensures
        text_before(a, c),
    decreases a.len(),
{
    if a.len() > 0 && a[0] == b[0] && b[0] == c[0] {
        text_order_is_transitive(a.skip(1), b.skip(1), c.skip(1));
    }
}

/// The decimal digit `d`.
pub open spec fn digit(d: nat) -> char {
    (48 + d) as char
}

/// `n` in decimal, without leading zeros.
pub open spec fn decimal(n: nat) -> Seq<char>
    decreases n,
{
    if n < 10 {
        seq![digit(n)]
    } else {
        decimal(n / 10).push(digit(n % 10))
    }
}

/// A decimal digit.
pub open spec fn is_digit(c: char) -> bool {
    '0' <= c && c <= '9'
}

/// A number is written with digits.
pub proof fn lemma_decimal_digits(n: nat)
    ensures
        decimal(n).len() > 0,
        forall|i: int| 0 <= i < decimal(n).len() ==> is_digit(#[trigger] decimal(n)[i]),
    decreases n,
{
    if n >= 10 {
        lemma_decimal_digits(n / 10);
        let rest = decimal(n / 10);
        assert forall|i: int| 0 <= i < decimal(n).len() implies is_digit(
            #[trigger] decimal(n)[i],
        ) by {
            if i < rest.len() {
                assert(decimal(n)[i] == rest[i]);
            }
        }
    }
}

/// No two numbers are written alike.
pub proof fn decimal_is_unique(a: nat, b: nat)
    requires
        decimal(a) == decimal(b),
    ensures
        a == b,
    decreases a,
{
    lemma_decimal_digits(a / 10);
    lemma_decimal_digits(b / 10);
    assert(decimal(a).last() == digit(a % 10));
    assert(decimal(b).last() == digit(b % 10));
    assert(digit(a % 10) as int == 48 + a % 10);
    assert(digit(b % 10) as int == 48 + b % 10);
    if a >= 10 && b >= 10 {
        assert(decimal(a).drop_last() =~= decimal(a / 10));
        assert(decimal(b).drop_last() =~= decimal(b / 10));
        decimal_is_unique(a / 10, b / 10);
    }
}

/// A text that starts with characters of one sort, and goes on with one of another sort or
/// ends, can be cut there in one way only.
pub proof fn lemma_cut(
    sort: spec_fn(char) -> bool,
    a: Seq<char>,
    x: Seq<char>,
    b: Seq<char>,
    y: Seq<char>,
)
    requires
        a + x == b + y,
        forall|i: int| 0 <= i < a.len() ==> sort(#[trigger] a[i]),
        forall|i: int| 0 <= i < b.len() ==> sort(#[trigger] b[i]),
        x.len() > 0 ==> !sort(x[0]),
        y.len() > 0 ==> !sort(y[0]),
    ensures
        a == b,
        x == y,
{
    let all = a + x;
    if a.len() < b.len() {
        assert(all[a.len() as int] == x[0]);
        assert((b + y)[a.len() as int] == b[a.len() as int]);
    } else if b.len() < a.len() {
        assert((b + y)[b.len() as int] == y[0]);
        assert(all[b.len() as int] == a[b.len() as int]);
    }
    assert(a =~= all.take(a.len() as int));
    assert(b =~= (b + y).take(b.len() as int));
    assert(x =~= all.skip(a.len() as int));
    assert(y =~= (b + y).skip(b.len() as int));
}

fn digit_text(d: u64) -> (r: &'static str)
    requires
        d < 10,
    ensures
        r@ == seq![digit(d as nat)],
{
    proof {
        reveal_strlit("0");
        reveal_strlit("1");
        reveal_strlit("2");
        reveal_strlit("3");
        reveal_strlit("4");
        reveal_strlit("5");
        reveal_strlit("6");
        reveal_strlit("7");
        reveal_strlit("8");
        reveal_strlit("9");
    }
    let r: &'static str = match d {
        0 => "0",
        1 => "1",
        2 => "2",
        3 => "3",
        4 => "4",
        5 => "5",
        6 => "6",
        7 => "7",
        8 => "8",
        _ => "9",
    };
    assert(r@ =~= seq![digit(d as nat)]);
    r
}

/// Writes `n` in decimal.
pub fn decimal_text(n: u64) -> (r: String)
    ensures
        r@ == decimal(n as nat),
    decreases n,
{
    if n < 10 {
        digit_text(n).to_string()
    } else {
        let mut r: String = decimal_text(n / 10);
        r.append(digit_text(n % 10));
        assert(r@ =~= decimal(n as nat));
        r
    }
}

/// A leading `dep:` is stripped however often it stands there, and nothing else is.
pub proof fn only_dep_prefixes_are_stripped(s: Seq<char>)
    ensures
        without_dep_prefix(seq!['d', 'e', 'p', ':'] + s) == without_dep_prefix(s),
        !(s.len() >= 4 && s[0] == 'd' && s[1] == 'e' && s[2] == 'p' && s[3] == ':')
            ==> without_dep_prefix(s) == s,
{
    let marked = seq!['d', 'e', 'p', ':'] + s;
    assert(marked.take(4) =~= dep_prefix());
    assert(marked.skip(4) =~= s);
    if s.len() >= 4 && s.take(4) == dep_prefix() {
        assert(s.take(4)[0] == 'd' && s.take(4)[1] == 'e' && s.take(4)[2] == 'p' && s.take(4)[3]
            == ':');
    }
}

/// Where the run before the first separator ends.
proof fn lemma_run_ends(s: Seq<char>)
    ensures
        run_len(s) <= s.len(),
        forall|j: int| 0 <= j < run_len(s) ==> !is_separator(#[trigger] s[j]),
        run_len(s) < s.len() ==> is_separator(s[run_len(s) as int]),
    decreases s.len(),
{
    if s.len() > 0 && !is_separator(s[0]) {
        lemma_run_ends(s.skip(1));
        assert forall|j: int| 0 <= j < run_len(s) implies !is_separator(#[trigger] s[j]) by {
            if j > 0 {
                assert(s.skip(1)[j - 1] == s[j]);
            }
        }
        if run_len(s) < s.len() {
            assert(s.skip(1)[run_len(s) - 1] == s[run_len(s) as int]);
        }
    }
}

/// A text without a slash or a question mark is one piece; an empty one is none.
pub proof fn a_piece_stays_whole(s: Seq<char>)
    requires
        forall|i: int| 0 <= i < s.len() ==> #[trigger] s[i] != '/' && s[i] != '?',
    ensures
        tokens(s) == if s.len() == 0 {
            Seq::<Seq<char>>::empty()
        } else {
            seq![s]
        },
{
    lemma_run_len(s, s.len() as int);
}

/// A slash or a question mark stands between the pieces before it and those after it.
pub proof fn a_text_is_cut_at_separators(a: Seq<char>, c: char, b: Seq<char>)
    requires
        c == '/' || c == '?',
    ensures
        tokens(a + seq![c] + b) == tokens(a) + tokens(b),
    decreases a.len(),
{
    let s = a + seq![c] + b;
    if a.len() == 0 {
        assert(s[0] == c);
        assert(s.skip(1) =~= b);
        assert(tokens(a) + tokens(b) =~= tokens(b));
    } else if is_separator(a[0]) {
        assert(s[0] == a[0]);
        assert(s.skip(1) =~= a.skip(1) + seq![c] + b);
        a_text_is_cut_at_separators(a.skip(1), c, b);
    } else {
        lemma_run_ends(a);
        let k = run_len(a) as int;
        assert forall|j: int| 0 <= j < k implies !is_separator(s[j]) by {
            assert(s[j] == a[j]);
        }
        assert(s[k] == if k < a.len() {
            a[k]
        } else {
            c
        });
        lemma_run_len(s, k);
        assert(s.take(k) =~= a.take(k));
        assert(s.skip(k) =~= a.skip(k) + seq![c] + b);
        a_text_is_cut_at_separators(a.skip(k), c, b);
        if k == a.len() {
            assert(a.take(k) =~= a);
            assert(tokens(a.skip(k)) =~= Seq::<Seq<char>>::empty());
        }
        assert(seq![a.take(k)] + (tokens(a.skip(k)) + tokens(b)) =~= tokens(a) + tokens(b));
    }
}

/// A text occurs in another if and only if that one is made of it and of what stands before
/// and after it.
pub proof fn what_occurs_is_a_part(s: Seq<char>, part: Seq<char>)
    ensures
        occurs(s, part) <==> exists|a: Seq<char>, b: Seq<char>| s == #[trigger] (a + part + b),
{
    if occurs(s, part) {
        let i = choose|i: int|
            0 <= i <= s.len() - part.len() && #[trigger] s.subrange(i, i + part.len()) == part;
        assert(s =~= s.take(i) + part + s.skip(i + part.len()));
    }
    if exists|a: Seq<char>, b: Seq<char>| s == #[trigger] (a + part + b) {
        let (a, b) = choose|a: Seq<char>, b: Seq<char>| s == #[trigger] (a + part + b);
        let i = a.len() as int;
        assert(s.subrange(i, i + part.len()) =~= part);
    }
}

/// A text comes before those that go on where it ends, and of two texts that differ the one
/// with the lower character at the first difference comes first.
pub proof fn texts_are_ordered_by_the_first_difference(
    start: Seq<char>,
    c: char,
    x: Seq<char>,
    d: char,
    y: Seq<char>,
)
    requires
        c < d,
    ensures
        text_before(start, start + (seq![c] + x)),
        !text_before(start + x, start),
        text_before(start + (seq![c] + x), start + (seq![d] + y)),
        !text_before(start + (seq![d] + y), start + (seq![c] + x)),
    decreases start.len(),
{
    let (a, b) = (start + (seq![c] + x), start + (seq![d] + y));
    if start.len() == 0 {
        assert(a[0] == c && b[0] == d);
    } else {
        let rest = start.skip(1);
        assert(a.skip(1) =~= rest + (seq![c] + x));
        assert(b.skip(1) =~= rest + (seq![d] + y));
        assert((start + x).skip(1) =~= rest + x);
        texts_are_ordered_by_the_first_difference(rest, c, x, d, y);
    }
}

/// A number below ten is written with its digit, and any other with its last digit behind
/// what is left of it.
pub proof fn numbers_are_written_digit_by_digit(n: nat, d: nat, c: char)
    requires
        d < 10,
        c as int == '0' as int + d,
    ensures
        decimal(d) == seq![c],
        n > 0 ==> decimal(10 * n + d) == decimal(n).push(c),
{
    assert(digit(d) == c);
    if n > 0 {
        assert((10 * n + d) / 10 == n && (10 * n + d) % 10 == d);
    }
}

/// The contents of a list of strings are those of each of them, in order.
pub proof fn texts_are_kept_in_order(list: Seq<String>)
    ensures
        texts(list).len() == list.len(),
        forall|i: int| 0 <= i < list.len() ==> #[trigger] texts(list)[i] == list[i]@,
{
}

} // verus!
