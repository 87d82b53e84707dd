use vstd::prelude::*;
use vstd::std_specs::iter::IteratorSpec;
use vstd::utf8::{decode_utf8, valid_utf8};

verus! {

broadcast use vstd::string::group_string_axioms;

/// The characters of each string.
pub open spec fn string_views(v: Seq<String>) -> Seq<Seq<char>> {
    v.map_values(|s: String| s@)
}

/// The characters of each string slice.
pub open spec fn str_views(v: Seq<&str>) -> Seq<Seq<char>> {
    v.map_values(|s: &str| s@)
}

/// Viewing commutes with pushing.
pub proof fn lemma_str_views_push(before: Seq<&str>, x: &str)
    ensures
        str_views(before.push(x)) == str_views(before).push(x@),
{
    assert(str_views(before.push(x)) =~= str_views(before).push(x@));
}

/// Viewing commutes with pushing.
pub proof fn lemma_string_views_push(before: Seq<String>, x: String)
    ensures
        string_views(before.push(x)) == string_views(before).push(x@),
{
    assert(string_views(before.push(x)) =~= string_views(before).push(x@));
}

/// The characters of `s`, in order.
pub fn chars_of(s: &str) -> (r: Vec<char>)
    ensures
        r@ == s@,
{
    let mut it = s.chars();
    let mut r: Vec<char> = Vec::new();
    loop
        invariant
            r@ + it.remaining() == s@,
            it.obeys_prophetic_iter_laws(),
            it.decrease() is Some,
        decreases it.decrease()->0,
    {
        match it.next() {
            Some(c) => {
                r.push(c);
            },
            None => {
                return r;
            },
        }
    }
}

/// The characters with the Unicode `White_Space` property.
pub open spec fn is_white_space(c: char) -> bool {
    ||| ('\u{9}' <= c && c <= '\u{d}')
    ||| c == ' '
    ||| c == '\u{85}'
    ||| c == '\u{a0}'
    ||| c == '\u{1680}'
    ||| ('\u{2000}' <= c && c <= '\u{200a}')
    ||| c == '\u{2028}'
    ||| c == '\u{2029}'
    ||| c == '\u{202f}'
    ||| c == '\u{205f}'
    ||| c == '\u{3000}'
}

/// Whether `c` has the Unicode `White_Space` property.
pub fn is_whitespace(c: char) -> (r: bool)
    ensures
        r == is_white_space(c),
{
    ('\u{9}' <= c && c <= '\u{d}') || c == ' ' || c == '\u{85}' || c == '\u{a0}' || c
        == '\u{1680}' || ('\u{2000}' <= c && c <= '\u{200a}') || c == '\u{2028}' || c
        == '\u{2029}' || c == '\u{202f}' || c == '\u{205f}' || c == '\u{3000}'
}

/// `s` without its trailing white space.
pub open spec fn trim_end(s: Seq<char>) -> Seq<char>
    decreases s.len(),
{
    if s.len() > 0 && is_white_space(s.last()) {
        trim_end(s.drop_last())
    } else {
        s
    }
}

/// `s` without its leading white space.
pub open spec fn trim_start(s: Seq<char>) -> Seq<char>
    decreases s.len(),
{
    if s.len() > 0 && is_white_space(s[0]) {
        trim_start(s.drop_first())
    } else {
        s
    }
}

/// `s` without its leading and trailing white space.
pub open spec fn trim(s: Seq<char>) -> Seq<char> {
    trim_start(trim_end(s))
}

/// The bounds `lo..hi` of `s` without trailing white space.
pub fn trimmed_end_len(s: &Vec<char>) -> (n: usize)
    ensures
        n <= s@.len(),
        s@.take(n as int) == trim_end(s@),
{
    let mut n = s.len();
    assert(s@.take(n as int) =~= s@);
    while n > 0 && is_whitespace(s[n - 1])
        invariant
            n <= s@.len(),
            trim_end(s@.take(n as int)) == trim_end(s@),
        decreases n,
    {
        assert(s@.take(n as int).drop_last() =~= s@.take(n - 1));
        n = n - 1;
    }
    if n > 0 {
        assert(s@.take(n as int).last() == s@[n - 1]);
    }
    n
}

/// `s` without its trailing white space.
pub fn trim_end_string(s: &str) -> (r: String)
    ensures
        r@ == trim_end(s@),
{
    let cs = chars_of(s);
    let n = trimmed_end_len(&cs);
    let kept = slice_prefix(&cs, n);
    string_from_chars(kept.as_slice())
}

/// `s` without its leading and trailing white space.
pub fn trim_string(s: &str) -> (r: String)
    ensures
        r@ == trim(s@),
{
    let cs = chars_of(s);
    let n = trimmed_end_len(&cs);
    let ghost e = cs@.take(n as int);
    let mut lo: usize = 0;
    assert(e.skip(0) =~= e);
    while lo < n && is_whitespace(cs[lo])
        invariant
            lo <= n <= cs@.len(),
            e == cs@.take(n as int),
            trim_start(e.skip(lo as int)) == trim_start(e),
        decreases n - lo,
    {
        assert(e.skip(lo as int)[0] == cs@[lo as int]);
        assert(e.skip(lo as int).drop_first() =~= e.skip(lo + 1));
        lo = lo + 1;
    }
    if lo < n {
        assert(e.skip(lo as int)[0] == cs@[lo as int]);
    }
    let mut out: Vec<char> = Vec::new();
    let mut i = lo;
    while i < n
        invariant
            lo <= i <= n <= cs@.len(),
            out@ == cs@.subrange(lo as int, i as int),
        decreases n - i,
    {
        out.push(cs[i]);
        i = i + 1;
        assert(out@ =~= cs@.subrange(lo as int, i as int));
    }
    assert(out@ =~= e.skip(lo as int));
    string_from_chars(out.as_slice())
}

/// The first `n` elements of `v`.
pub fn slice_prefix(v: &Vec<char>, n: usize) -> (r: Vec<char>)
    requires
        n <= v@.len(),
    ensures
        r@ == v@.take(n as int),
{
    let mut r: Vec<char> = Vec::new();
    let mut i: usize = 0;
    while i < n
        invariant
            i <= n <= v@.len(),
            r@ == v@.take(i as int),
        decreases n - i,
    {
        r.push(v[i]);
        i = i + 1;
        assert(r@ =~= v@.take(i as int));
    }
    r
}

/// The decimal digits of `n`, most significant first, without leading zeros.
pub open spec fn decimal(n: nat) -> Seq<char>
    decreases n,
{
    if n < 10 {
        seq![digit_char(n)]
    } else {
        decimal(n / 10).push(digit_char(n % 10))
    }
}

/// The character of the decimal digit `d`.
pub open spec fn digit_char(d: nat) -> char {
    if d == 0 {
        '0'
    } else if d == 1 {
        '1'
    } else if d == 2 {
        '2'
    } else if d == 3 {
        '3'
    } else if d == 4 {
        '4'
    } else if d == 5 {
        '5'
    } else if d == 6 {
        '6'
    } else if d == 7 {
        '7'
    } else if d == 8 {
        '8'
    } else {
        '9'
    }
}

fn digit(d: u32) -> (c: char)
    requires
        d < 10,
    ensures
        c == digit_char(d as nat),
{
    if d == 0 {
        '0'
    } else if d == 1 {
        '1'
    } else if d == 2 {
        '2'
    } else if d == 3 {
        '3'
    } else if d == 4 {
        '4'
    } else if d == 5 {
        '5'
    } else if d == 6 {
        '6'
    } else if d == 7 {
        '7'
    } else if d == 8 {
        '8'
    } else {
        '9'
    }
}

/// The decimal representation of `n`.
pub fn decimal_string(n: u32) -> (r: String)
    ensures
        r@ == decimal(n as nat),
{
    let mut digits: Vec<char> = Vec::new();
    let mut m = n;
    // Collect the digits from least significant up.
    loop
        invariant_except_break
            m <= n,
            decimal(n as nat) == decimal(m as nat) + digits@.reverse(),
        ensures
            decimal(n as nat) == digits@.reverse(),
        decreases m,
    {
        if m < 10 {
            let ghost old_digits = digits@;
            digits.push(digit(m));
            assert(digits@.reverse() =~= seq![digit_char(m as nat)] + old_digits.reverse());
            break;
        }
        let ghost old_digits = digits@;
        digits.push(digit(m % 10));
        assert(decimal(m as nat) == decimal((m / 10) as nat).push(digit_char((m % 10) as nat)));
        assert(digits@.reverse() =~= seq![digit_char((m % 10) as nat)] + old_digits.reverse());
        assert(decimal(m as nat) + old_digits.reverse() =~= decimal((m / 10) as nat)
            + digits@.reverse());
        m = m / 10;
    }
    let mut out: Vec<char> = Vec::new();
    let mut i = digits.len();
    while i > 0
        invariant
            i <= digits@.len(),
            out@ == digits@.reverse().take(digits@.len() - i),
        decreases i,
    {
        i = i - 1;
        out.push(digits[i]);
        assert(out@ =~= digits@.reverse().take(digits@.len() - i));
    }
    assert(out@ =~= digits@.reverse());
    string_from_chars(out.as_slice())
}

/// The strings of `parts` joined, with `sep` between each two.
pub open spec fn join_seq(parts: Seq<Seq<char>>, sep: Seq<char>) -> Seq<char>
    decreases parts.len(),
{
    if parts.len() == 0 {
        Seq::empty()
    } else if parts.len() == 1 {
        parts[0]
    } else {
        join_seq(parts.drop_last(), sep) + sep + parts.last()
    }
}

/// Appends the characters of `t` to `s`.
pub fn push_str(s: &mut String, t: &str)
    ensures
        final(s)@ == old(s)@ + t@,
{
    let cs = chars_of(t);
    let ghost start = s@;
    let mut i: usize = 0;
    while i < cs.len()
        invariant
            i <= cs@.len(),
            cs@ == t@,
            s@ == start + cs@.take(i as int),
        decreases cs@.len() - i,
    {
        push_char(s, cs[i]);
        i = i + 1;
        assert(s@ =~= start + cs@.take(i as int));
    }
    assert(cs@.take(cs@.len() as int) =~= cs@);
}

/// The strings of `parts` joined, with `sep` between each two.
pub fn join(parts: &[String], sep: &str) -> (r: String)
    ensures
        r@ == join_seq(string_views(parts@), sep@),
{
    let ghost views = string_views(parts@);
    let mut r = String::new();
    let mut i: usize = 0;
    assert(views.take(0) =~= Seq::<Seq<char>>::empty());
    while i < parts.len()
        invariant
            i <= parts@.len(),
            views == string_views(parts@),
            r@ == join_seq(views.take(i as int), sep@),
        decreases parts@.len() - i,
    {
        if i > 0 {
            push_str(&mut r, sep);
        }
        push_str(&mut r, parts[i].as_str());
        assert(views.take(i + 1).drop_last() =~= views.take(i as int));
        if i == 0 {
            assert(r@ =~= views.take(1)[0]);
        }
        i = i + 1;
    }
    assert(views.take(parts@.len() as int) =~= views);
    r
}

/// The text that `bytes` encode, if they are valid UTF-8.
///
/// Trusted: calls `std::str::from_utf8`, which accepts exactly the valid
/// UTF-8 byte sequences and then holds the characters they encode.
#[verifier::external_body]
pub fn utf8_text(bytes: &[u8]) -> (r: Option<&str>)
    ensures
        match r {
            Some(s) => valid_utf8(bytes@) && s@ == decode_utf8(bytes@),
            None => !valid_utf8(bytes@),
        },
{
    std::str::from_utf8(bytes).ok()
}

/// `a` comes strictly before `b` in lexicographic order of code points,
/// the order of `str`.
pub open spec fn lex_lt(a: Seq<char>, b: Seq<char>) -> bool
    decreases a.len(),
{
    if a.len() == 0 {
        b.len() > 0
    } else if b.len() == 0 {
        false
    } else if a[0] < b[0] {
        true
    } else if a[0] == b[0] {
        lex_lt(a.drop_first(), b.drop_first())
    } else {
        false
    }
}

/// Every element comes strictly before the later ones.
pub open spec fn lex_sorted(s: Seq<Seq<char>>) -> bool {
    forall|i: int, j: int| 0 <= i < j < s.len() ==> lex_lt(#[trigger] s[i], #[trigger] s[j])
}

/// The lexicographic order is irreflexive and asymmetric.
proof fn lemma_lex_asym(a: Seq<char>, b: Seq<char>)
    ensures
        !lex_lt(a, a),
        lex_lt(a, b) ==> !lex_lt(b, a),
    decreases a.len(),
{
    if a.len() > 0 {
        lemma_lex_asym(a.drop_first(), a.drop_first());
        if b.len() > 0 {
            lemma_lex_asym(a.drop_first(), b.drop_first());
        }
    }
}

/// Two different strings are ordered one way or the other.
proof fn lemma_lex_total(a: Seq<char>, b: Seq<char>)
    ensures
        a != b ==> lex_lt(a, b) || lex_lt(b, a),
    decreases a.len(),
{
    if a != b && a.len() > 0 && b.len() > 0 {
        if a[0] == b[0] {
            assert(a.drop_first() != b.drop_first()) by {
                if a.drop_first() == b.drop_first() {
                    assert(a =~= seq![a[0]] + a.drop_first());
                    assert(b =~= seq![b[0]] + b.drop_first());
                }
            }
            lemma_lex_total(a.drop_first(), b.drop_first());
        } else {
            assert(a[0] < b[0] || b[0] < a[0]);
        }
    } else if a != b && a.len() == 0 && b.len() == 0 {
        assert(a =~= b);
    }
}

/// The lexicographic order is transitive.
proof fn lemma_lex_trans(a: Seq<char>, b: Seq<char>, c: Seq<char>)
    ensures
        lex_lt(a, b) && lex_lt(b, c) ==> lex_lt(a, c),
    decreases a.len(),
{
    if a.len() > 0 && b.len() > 0 && c.len() > 0 {
        lemma_lex_trans(a.drop_first(), b.drop_first(), c.drop_first());
    }
}

/// The lexicographic order is a strict total order.
pub proof fn lemma_lex_order(a: Seq<char>, b: Seq<char>, c: Seq<char>)
    ensures
        !lex_lt(a, a),
        lex_lt(a, b) ==> !lex_lt(b, a),
        a != b ==> lex_lt(a, b) || lex_lt(b, a),
        lex_lt(a, b) && lex_lt(b, c) ==> lex_lt(a, c),
{
    lemma_lex_asym(a, b);
    lemma_lex_total(a, b);
    lemma_lex_trans(a, b, c);
}

/// Whether `a` comes strictly before `b` in the order of `str`.
pub fn str_lt(a: &str, b: &str) -> (r: bool)
    ensures
        r == lex_lt(a@, b@),
{
    let x = chars_of(a);
    let y = chars_of(b);
    let mut i: usize = 0;
    assert(x@.skip(0) =~= x@);
    assert(y@.skip(0) =~= y@);
    while i < x.len() && i < y.len()
        invariant
            i <= x@.len(),
            i <= y@.len(),
            lex_lt(x@.skip(i as int), y@.skip(i as int)) == lex_lt(a@, b@),
            x@ == a@,
            y@ == b@,
        decreases x@.len() - i,
    {
        assert(x@.skip(i as int)[0] == x@[i as int]);
        assert(y@.skip(i as int)[0] == y@[i as int]);
        if x[i] != y[i] {
            return x[i] < y[i];
        }
        assert(x@.skip(i as int).drop_first() =~= x@.skip(i + 1));
        assert(y@.skip(i as int).drop_first() =~= y@.skip(i + 1));
        i = i + 1;
    }
    x.len() < y.len()
}

/// Sort the strings in the order of `str`. The strings must be distinct.
pub fn sort_distinct<'a>(items: Vec<&'a str>) -> (r: Vec<&'a str>)
    requires
        str_views(items@).no_duplicates(),
    ensures
        str_views(r@).to_set() == str_views(items@).to_set(),
        lex_sorted(str_views(r@)),
{
    let ghost input = str_views(items@);
    let mut sorted: Vec<&'a str> = Vec::new();
    let mut i: usize = 0;
    assert(str_views(sorted@).to_set() =~= input.take(0).to_set());
    while i < items.len()
        invariant
            i <= items@.len(),
            input == str_views(items@),
            input.no_duplicates(),
            str_views(sorted@).to_set() == input.take(i as int).to_set(),
            lex_sorted(str_views(sorted@)),
        decreases items@.len() - i,
    {
        let x = items[i];
        let ghost before = str_views(sorted@);
        // Find the first element that is not before `x`.
        let mut p: usize = 0;
        while p < sorted.len() && str_lt(sorted[p], x)
            invariant
                p <= sorted@.len(),
                before == str_views(sorted@),
                forall|k: int| 0 <= k < p ==> lex_lt(#[trigger] before[k], x@),
            decreases sorted@.len() - p,
        {
            p = p + 1;
        }
        // `x` is new, so it is not the element at `p`.
        assert(!before.contains(x@)) by {
            if before.contains(x@) {
                let k = choose|k: int| 0 <= k < before.len() && before[k] == x@;
                assert(input.take(i as int).to_set().contains(x@));
                let t = input.take(i as int);
                let m = choose|m: int| 0 <= m < t.len() && t[m] == x@;
                assert(input[m] == x@);
                assert(input[i as int] == x@);
            }
        }
        sorted.insert(p, x);
        let ghost after = str_views(sorted@);
        assert(after =~= before.insert(p as int, x@));
        assert(lex_sorted(after)) by {
            assert forall|a: int, b: int| 0 <= a < b < after.len() implies lex_lt(
                #[trigger] after[a],
                #[trigger] after[b],
            ) by {
                if p < before.len() {
                    lemma_lex_order(x@, before[p as int], before[p as int]);
                    assert(before[p as int] != x@);
                    lemma_lex_order(before[p as int], x@, x@);
                }
                if b < p {
                } else if b == p {
                    assert(after[a] == before[a]);
                } else if a < p {
                    assert(after[b] == before[b - 1]);
                    assert(lex_lt(before[a], x@));
                    lemma_lex_order(before[a], x@, before[p as int]);
                    if b - 1 > p {
                        lemma_lex_order(before[a], before[p as int], before[b - 1]);
                    }
                } else if a == p {
                    assert(after[b] == before[b - 1]);
                    if b - 1 > p {
                        lemma_lex_order(x@, before[p as int], before[b - 1]);
                    }
                } else {
                    assert(after[a] == before[a - 1]);
                    assert(after[b] == before[b - 1]);
                }
            }
        }
        assert(after.to_set() =~= input.take(i + 1).to_set()) by {
            assert(input.take(i + 1) =~= input.take(i as int).push(x@));
            assert forall|w: Seq<char>| after.to_set().contains(w) implies input.take(i + 1).to_set().contains(w) by {
                let k = choose|k: int| 0 <= k < after.len() && after[k] == w;
                if k < p {
                    assert(before[k] == w);
                    assert(before.to_set().contains(w));
                } else if k > p {
                    assert(before[k - 1] == w);
                    assert(before.to_set().contains(w));
                } else {
                    assert(input.take(i + 1)[i as int] == w);
                }
            }
            assert forall|w: Seq<char>| input.take(i + 1).to_set().contains(w) implies after.to_set().contains(w) by {
                let t = input.take(i + 1);
                let m = choose|m: int| 0 <= m < t.len() && t[m] == w;
                if m == i {
                    assert(after[p as int] == w);
                } else {
                    assert(input.take(i as int)[m] == w);
                    assert(before.to_set().contains(w));
                    let k = choose|k: int| 0 <= k < before.len() && before[k] == w;
                    if k < p {
                        assert(after[k] == w);
                    } else {
                        assert(after[k + 1] == w);
                    }
                }
            }
        }
        i = i + 1;
    }
    assert(input.take(items@.len() as int) =~= input);
    sorted
}

/// Appends `c` to `s`.
///
/// Trusted: calls `String::push`, which the standard library documents as
/// appending the given char to the end of the string.
#[verifier::external_body]
pub fn push_char(s: &mut String, c: char)
    ensures
        final(s)@ == old(s)@.push(c),
{
    s.push(c);
}

/// Whether two string slices hold the same characters.
pub fn str_eq(a: &str, b: &str) -> (r: bool)
    ensures
        r == (a@ == b@),
{
    let x = chars_of(a);
    let y = chars_of(b);
    if x.len() != y.len() {
        return false;
    }
    let mut i: usize = 0;
    while i < x.len()
        invariant
            i <= x@.len(),
            x@.len() == y@.len(),
            x@ == a@,
            y@ == b@,
            forall|k: int| 0 <= k < i ==> x@[k] == y@[k],
        decreases x@.len() - i,
    {
        if x[i] != y[i] {
            return false;
        }
        i = i + 1;
    }
    assert(x@ =~= y@);
    true
}

/// The string made of the characters of `cs`, in order.
pub fn string_from_chars(cs: &[char]) -> (r: String)
    ensures
        r@ == cs@,
{
    let mut r = String::new();
    let mut i: usize = 0;
    while i < cs.len()
        invariant
            i <= cs.len(),
            r@ == cs@.take(i as int),
        decreases cs.len() - i,
    {
        push_char(&mut r, cs[i]);
        i = i + 1;
        assert(r@ =~= cs@.take(i as int));
    }
    assert(cs@.take(cs.len() as int) =~= cs@);
    r
}

} // verus!
