//! Text helpers shared by the bus: comparing, ordering, searching and
//! building strings, all stated over the character (and UTF-8 byte) views.

use vstd::prelude::*;
use vstd::string::*;
use vstd::utf8::*;

verus! {

broadcast use vstd::utf8::encode_utf8_decode_utf8;

/// The UTF-8 encoding of a character sequence (what `str::as_bytes` yields).
pub open spec fn text_bytes(s: Seq<char>) -> Seq<u8> {
    encode_utf8(s)
}

/// Lexicographic order on byte strings — the order `String`'s `Ord` uses.
pub open spec fn bytes_le(a: Seq<u8>, b: Seq<u8>) -> bool
    decreases a.len(),
{
    if a.len() == 0 {
        true
    } else if b.len() == 0 {
        false
    } else if a[0] < b[0] {
        true
    } else if a[0] > b[0] {
        false
    } else {
        bytes_le(a.drop_first(), b.drop_first())
    }
}

/// Lexicographic order on texts, by their UTF-8 bytes.
pub open spec fn text_le(a: Seq<char>, b: Seq<char>) -> bool {
    bytes_le(text_bytes(a), text_bytes(b))
}

pub proof fn lemma_bytes_le_total(a: Seq<u8>, b: Seq<u8>)
    ensures
        bytes_le(a, b) || bytes_le(b, a),
    decreases a.len(),
{
    if a.len() > 0 && b.len() > 0 && a[0] == b[0] {
        lemma_bytes_le_total(a.drop_first(), b.drop_first());
    }
}

pub proof fn lemma_bytes_le_transitive(a: Seq<u8>, b: Seq<u8>, c: Seq<u8>)
    requires
        bytes_le(a, b),
        bytes_le(b, c),
    ensures
        bytes_le(a, c),
    decreases a.len(),
{
    if a.len() > 0 && b.len() > 0 && c.len() > 0 && a[0] == b[0] && b[0] == c[0] {
        lemma_bytes_le_transitive(a.drop_first(), b.drop_first(), c.drop_first());
    }
}

pub proof fn lemma_bytes_le_antisymmetric(a: Seq<u8>, b: Seq<u8>)
    requires
        bytes_le(a, b),
        bytes_le(b, a),
    ensures
        a == b,
    decreases a.len(),
{
    if a.len() > 0 && b.len() > 0 {
        lemma_bytes_le_antisymmetric(a.drop_first(), b.drop_first());
        assert(a =~= seq![a[0]] + a.drop_first());
        assert(b =~= seq![b[0]] + b.drop_first());
    }
}

proof fn lemma_bytes_le_skip(a: Seq<u8>, b: Seq<u8>, i: int)
    requires
        0 <= i < a.len(),
        i < b.len(),
        a[i] == b[i],
    ensures
        bytes_le(a.skip(i), b.skip(i)) == bytes_le(a.skip(i + 1), b.skip(i + 1)),
{
    assert(a.skip(i).drop_first() =~= a.skip(i + 1));
    assert(b.skip(i).drop_first() =~= b.skip(i + 1));
}

/// Equality of two texts.
pub fn same_text(a: &str, b: &str) -> (r: bool)
    ensures
        r == (a@ == b@),
{
    let x = a.as_bytes();
    let y = b.as_bytes();
    if x.len() != y.len() {
        return false;
    }
    let mut i: usize = 0;
    while i < x.len()
        invariant
            x@ == text_bytes(a@),
            y@ == text_bytes(b@),
            x@.len() == y@.len(),
            0 <= i <= x@.len(),
            forall|j: int| 0 <= j < i ==> x@[j] == y@[j],
        decreases x@.len() - i,
    {
        if x[i] != y[i] {
            return false;
        }
        i = i + 1;
    }
    assert(x@ =~= y@);
    assert(decode_utf8(encode_utf8(a@)) == a@);
    assert(decode_utf8(encode_utf8(b@)) == b@);
    true
}

/// Byte-lexicographic `a <= b`, the order of `String`'s `Ord`.
pub fn text_le_exec(a: &str, b: &str) -> (r: bool)
    ensures
        r == text_le(a@, b@),
{
    let x = a.as_bytes();
    let y = b.as_bytes();
    let mut i: usize = 0;
    assert(x@.skip(0) =~= x@);
    assert(y@.skip(0) =~= y@);
    while i < x.len() && i < y.len()
        invariant
            x@ == text_bytes(a@),
            y@ == text_bytes(b@),
            0 <= i <= x@.len(),
            i <= y@.len(),
            bytes_le(x@, y@) == bytes_le(x@.skip(i as int), y@.skip(i as int)),
        decreases x@.len() - i,
    {
        if x[i] < y[i] {
            return true;
        }
        if x[i] > y[i] {
            return false;
        }
        proof {
            lemma_bytes_le_skip(x@, y@, i as int);
        }
        i = i + 1;
    }
    i == x.len()
}

/// The characters of a text, as a vector.
pub fn chars_of(s: &str) -> (r: Vec<char>)
    ensures
        r@ == s@,
{
    let n = s.unicode_len();
    let mut out: Vec<char> = Vec::new();
    let mut i: usize = 0;
    while i < n
        invariant
            n == s@.len(),
            0 <= i <= n,
            out@ == s@.take(i as int),
        decreases n - i,
    {
        let c = s.get_char(i);
        out.push(c);
        i = i + 1;
        assert(out@ =~= s@.take(i as int));
    }
    assert(out@ =~= s@);
    out
}

/// `needle` occurs in `hay` starting at position `i`.
pub open spec fn occurs_at(hay: Seq<char>, needle: Seq<char>, i: int) -> bool {
    0 <= i && i + needle.len() <= hay.len() && hay.subrange(i, i + needle.len()) == needle
}

/// `needle` occurs somewhere in `hay` (what `str::contains` answers).
pub open spec fn contains_text(hay: Seq<char>, needle: Seq<char>) -> bool {
    exists|i: int| occurs_at(hay, needle, i)
}

/// Substring search.
pub fn contains_exec(hay: &str, needle: &str) -> (r: bool)
    ensures
        r == contains_text(hay@, needle@),
{
    let h = chars_of(hay);
    let n = chars_of(needle);
    if n.len() > h.len() {
        assert forall|i: int| !occurs_at(hay@, needle@, i) by {}
        return false;
    }
    let hlen = h.len();
    let last = hlen - n.len();
    let mut i: usize = 0;
    while i <= last
        invariant
            h@.len() == hlen,
            h@ == hay@,
            n@ == needle@,
            n@.len() <= h@.len(),
            last == h@.len() - n@.len(),
            0 <= i <= last + 1,
            forall|k: int| 0 <= k < i ==> !occurs_at(hay@, needle@, k),
        decreases last + 1 - i,
    {
        let mut j: usize = 0;
        let mut ok = true;
        while j < n.len()
            invariant
                h@ == hay@,
                n@ == needle@,
                i + n@.len() <= h@.len(),
                h@.len() == hlen,
                0 <= j <= n@.len(),
                ok == (forall|t: int| 0 <= t < j ==> h@[i + t] == n@[t]),
            decreases n@.len() - j,
        {
            if h[i + j] != n[j] {
                ok = false;
            }
            j = j + 1;
        }
        if ok {
            assert(hay@.subrange(i as int, i + needle@.len()) =~= needle@);
            assert(occurs_at(hay@, needle@, i as int));
            return true;
        }
        assert(!occurs_at(hay@, needle@, i as int)) by {
            if occurs_at(hay@, needle@, i as int) {
                let t = choose|t: int| 0 <= t < n@.len() && h@[i + t] != n@[t];
                assert(hay@.subrange(i as int, i + needle@.len())[t] == h@[i + t]);
            }
        }
        i = i + 1;
    }
    assert forall|k: int| !occurs_at(hay@, needle@, k) by {
        if k > last {
            assert(!(k + needle@.len() <= hay@.len()));
        }
    }
    false
}

/// Appends one character (`String::push`).
#[verifier::external_body]
pub(crate) fn push_char(s: &mut String, c: char)
    ensures
        final(s)@ == old(s)@.push(c),
{
    s.push(c);
}

/// A text built from a literal or borrowed text.
pub fn text_of(s: &str) -> (r: String)
    ensures
        r@ == s@,
{
    String::from_str(s)
}

/// `a` followed by `b`.
pub fn join2(a: &str, b: &str) -> (r: String)
    ensures
        r@ == a@ + b@,
{
    let mut out = String::from_str(a);
    out.append(b);
    out
}

/// `a`, `b`, `c` in a row.
pub fn join3(a: &str, b: &str, c: &str) -> (r: String)
    ensures
        r@ == a@ + b@ + c@,
{
    let mut out = String::from_str(a);
    out.append(b);
    out.append(c);
    out
}

/// The first `n` characters of `s`.
pub fn take_chars(s: &str, n: usize) -> (r: String)
    ensures
        r@ == s@.take(if s@.len() < n { s@.len() as int } else { n as int }),
{
    let len = s.unicode_len();
    let k = if len < n { len } else { n };
    String::from_str(s.substring_char(0, k))
}

/// Decimal digits of a natural number, most significant first.
pub open spec fn decimal(n: nat) -> Seq<char>
    decreases n,
{
    if n < 10 {
        seq![digit_char(n)]
    } else {
        decimal(n / 10).push(digit_char(n % 10))
    }
}

pub open spec fn digit_char(d: nat) -> char {
    if d == 0 { '0' }
    else if d == 1 { '1' }
    else if d == 2 { '2' }
    else if d == 3 { '3' }
    else if d == 4 { '4' }
    else if d == 5 { '5' }
    else if d == 6 { '6' }
    else if d == 7 { '7' }
    else if d == 8 { '8' }
    else { '9' }
}

fn digit_exec(d: u128) -> (c: char)
    requires
        d < 10,
    ensures
        c == digit_char(d as nat),
{
    if d == 0 { '0' }
    else if d == 1 { '1' }
    else if d == 2 { '2' }
    else if d == 3 { '3' }
    else if d == 4 { '4' }
    else if d == 5 { '5' }
    else if d == 6 { '6' }
    else if d == 7 { '7' }
    else if d == 8 { '8' }
    else { '9' }
}

/// The decimal rendering of `n` (what `Display` for integers writes).
pub fn decimal_text(n: u128) -> (r: String)
    ensures
        r@ == decimal(n as nat),
    decreases n,
{
    if n < 10 {
        let mut s = String::new();
        push_char(&mut s, digit_exec(n));
        assert(s@ =~= decimal(n as nat));
        s
    } else {
        let mut s = decimal_text(n / 10);
        push_char(&mut s, digit_exec(n % 10));
        s
    }
}

/// `n` spaces.
pub open spec fn spaces(n: nat) -> Seq<char> {
    Seq::new(n, |i: int| ' ')
}

/// Left-aligned padding to a minimum width, as `format!("{:<w$}")` does.
pub open spec fn pad_right(s: Seq<char>, width: nat) -> Seq<char> {
    if s.len() < width {
        s + spaces((width - s.len()) as nat)
    } else {
        s
    }
}

pub fn pad_right_exec(s: &str, width: usize) -> (r: String)
    ensures
        r@ == pad_right(s@, width as nat),
{
    let mut out = String::from_str(s);
    let mut len = s.unicode_len();
    let ghost start = s@.len();
    while len < width
        invariant
            start == s@.len(),
            start <= len <= width || (len == start && start >= width),
            out@ == s@ + spaces((len - start) as nat),
        decreases width - len,
    {
        push_char(&mut out, ' ');
        len = len + 1;
        assert(out@ =~= s@ + spaces((len - start) as nat));
    }
    assert(out@ =~= pad_right(s@, width as nat));
    out
}

pub proof fn lemma_text_le_total(a: Seq<char>, b: Seq<char>)
    ensures
        text_le(a, b) || text_le(b, a),
{
    lemma_bytes_le_total(text_bytes(a), text_bytes(b));
}

pub proof fn lemma_text_le_transitive(a: Seq<char>, b: Seq<char>, c: Seq<char>)
    requires
        text_le(a, b),
        text_le(b, c),
    ensures
        text_le(a, c),
{
    lemma_bytes_le_transitive(text_bytes(a), text_bytes(b), text_bytes(c));
}

pub proof fn lemma_text_le_antisymmetric(a: Seq<char>, b: Seq<char>)
    requires
        text_le(a, b),
        text_le(b, a),
    ensures
        a == b,
{
    lemma_bytes_le_antisymmetric(text_bytes(a), text_bytes(b));
    assert(decode_utf8(encode_utf8(a)) == a);
    assert(decode_utf8(encode_utf8(b)) == b);
}

/// Texts in strictly ascending byte order: sorted, no repeats (the order of
/// a `BTreeSet<String>`).
pub open spec fn strictly_sorted(s: Seq<Seq<char>>) -> bool {
    forall|i: int, j: int| 0 <= i < j < s.len() ==> text_le(#[trigger] s[i], #[trigger] s[j]) && s[i] != s[j]
}

/// The views of a list of texts.
pub open spec fn text_views(v: Seq<String>) -> Seq<Seq<char>> {
    v.map_values(|a: String| a@)
}

/// Add `x` to a strictly sorted list of texts, keeping it strictly sorted
/// (nothing changes when `x` is already there). Returns the position of `x`.
pub fn insert_sorted(set: &mut Vec<String>, x: &str) -> (k: usize)
    requires
        strictly_sorted(text_views(old(set)@)),
    ensures
        strictly_sorted(text_views(final(set)@)),
        forall|t: Seq<char>| text_views(final(set)@).contains(t) <==> (text_views(old(set)@).contains(t) || t == x@),
        k < final(set)@.len(),
        final(set)@[k as int]@ == x@,
{
    let ghost s = text_views(set@);
    let n = set.len();
    let mut p: usize = 0;
    while p < n
        invariant
            n == set@.len(),
            s == text_views(set@),
            s.len() == n,
            0 <= p <= n,
            strictly_sorted(s),
            forall|i: int| 0 <= i < p ==> !text_le(x@, #[trigger] s[i]),
        ensures
            0 <= p <= n,
            forall|i: int| 0 <= i < p ==> !text_le(x@, #[trigger] s[i]),
            p < n ==> text_le(x@, s[p as int]),
        decreases n - p,
    {
        assert(s[p as int] == set@[p as int]@);
        if text_le_exec(x, set[p].as_str()) {
            break;
        }
        p = p + 1;
    }
    if p < n {
        assert(s[p as int] == set@[p as int]@);
        if same_text(set[p].as_str(), x) {
            assert(forall|t: Seq<char>| text_views(set@).contains(t) <==> (s.contains(t) || t == x@)) by {
                assert forall|t: Seq<char>| s.contains(t) || t == x@ implies text_views(set@).contains(t) by {
                    if t == x@ {
                        assert(s[p as int] == t);
                    }
                }
            }
            return p;
        }
    }
    let ghost xs = x@;
    let item = String::from_str(x);
    set.insert(p, item);
    let ghost t = text_views(set@);
    proof {
        assert(t =~= s.insert(p as int, xs));
        assert forall|i: int, j: int| 0 <= i < j < t.len() implies text_le(#[trigger] t[i], #[trigger] t[j]) && t[i] != t[j] by {
            if j < p {
                assert(t[i] == s[i] && t[j] == s[j]);
            } else if j == p {
                assert(t[i] == s[i] && t[j] == xs);
                assert(!text_le(xs, s[i]));
                lemma_text_le_total(xs, s[i]);
            } else if i == p {
                assert(t[i] == xs && t[j] == s[j - 1]);
                assert(text_le(xs, s[p as int]));
                if p < j - 1 {
                    lemma_text_le_transitive(xs, s[p as int], s[j - 1]);
                }
                if xs == s[j - 1] {
                    if p < j - 1 {
                        lemma_text_le_antisymmetric(s[p as int], xs);
                    }
                }
            } else if i < p {
                assert(t[i] == s[i] && t[j] == s[j - 1]);
            } else {
                assert(t[i] == s[i - 1] && t[j] == s[j - 1]);
            }
        }
        assert forall|u: Seq<char>| t.contains(u) <==> (s.contains(u) || u == xs) by {
            if t.contains(u) {
                let i = choose|i: int| 0 <= i < t.len() && t[i] == u;
                if i < p {
                    assert(s[i] == u);
                } else if i > p {
                    assert(s[i - 1] == u);
                }
            }
            if s.contains(u) {
                let i = choose|i: int| 0 <= i < s.len() && s[i] == u;
                if i < p {
                    assert(t[i] == u);
                } else {
                    assert(t[i + 1] == u);
                }
            }
            if u == xs {
                assert(t[p as int] == u);
            }
        }
    }
    p
}

} // verus!
