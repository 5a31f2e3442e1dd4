//! Character and string helpers shared by the parsers and the serializer.

use vstd::prelude::*;

verus! {

/// Whitespace, by the Unicode `White_Space` property: the set that
/// `str::trim` strips.
pub open spec fn is_ws(c: char) -> bool {
    ||| c as u32 == 0x09
    ||| c as u32 == 0x0a
    ||| c as u32 == 0x0b
    ||| c as u32 == 0x0c
    ||| c as u32 == 0x0d
    ||| c as u32 == 0x20
    ||| c as u32 == 0x85
    ||| c as u32 == 0xa0
    ||| c as u32 == 0x1680
    ||| (0x2000 <= c as u32 && c as u32 <= 0x200a)
    ||| c as u32 == 0x2028
    ||| c as u32 == 0x2029
    ||| c as u32 == 0x202f
    ||| c as u32 == 0x205f
    ||| c as u32 == 0x3000
}

/// Decimal digit test.
pub open spec fn is_digit(c: char) -> bool {
    48 <= c as u32 <= 57
}

/// Numeric value of a decimal digit character.
pub open spec fn digit_val(c: char) -> int {
    c as u32 - 48
}

/// The decimal digit character for a value below ten.
pub open spec fn digit_char(d: int) -> char {
    ((d + 48) as u8) as char
}

/// Lower-casing of one character, over the ASCII letters only: the section
/// titles and labels this dialect matches case-insensitively are ASCII, and
/// full Unicode case folding is not a character-to-character mapping.
pub open spec fn lower_char(c: char) -> char {
    if 65 <= c as u32 <= 90 {
        ((c as u32 + 32) as u8) as char
    } else {
        c
    }
}

/// ASCII lower-casing of a character sequence.
pub open spec fn lower_seq(s: Seq<char>) -> Seq<char> {
    s.map_values(|c: char| lower_char(c))
}

/// The sequence with leading and trailing whitespace removed.
pub open spec fn trim_spec(s: Seq<char>) -> Seq<char>
    decreases s.len(),
{
    if s.len() == 0 {
        s
    } else if is_ws(s[0]) {
        trim_spec(s.drop_first())
    } else if is_ws(s.last()) {
        trim_spec(s.drop_last())
    } else {
        s
    }
}

/// Index of the first occurrence of `sep`, or -1 when there is none.
pub open spec fn find_char(s: Seq<char>, sep: char) -> int
    decreases s.len(),
{
    if s.len() == 0 {
        -1
    } else if s[0] == sep {
        0
    } else {
        let r = find_char(s.drop_first(), sep);
        if r == -1 {
            -1
        } else {
            r + 1
        }
    }
}

/// The pieces of `s` between occurrences of `sep`; empty pieces are kept.
pub open spec fn split_char(s: Seq<char>, sep: char) -> Seq<Seq<char>>
    decreases s.len(),
{
    let i = find_char(s, sep);
    if 0 <= i < s.len() {
        seq![s.subrange(0, i)] + split_char(s.subrange(i + 1, s.len() as int), sep)
    } else {
        seq![s]
    }
}

/// The non-empty pieces, in order.
pub open spec fn keep_nonempty(parts: Seq<Seq<char>>) -> Seq<Seq<char>>
    decreases parts.len(),
{
    if parts.len() == 0 {
        Seq::empty()
    } else {
        let rest = keep_nonempty(parts.drop_first());
        if parts[0].len() == 0 {
            rest
        } else {
            seq![parts[0]] + rest
        }
    }
}

/// Prefix test.
pub open spec fn has_prefix(s: Seq<char>, p: Seq<char>) -> bool {
    p.len() <= s.len() && s.subrange(0, p.len() as int) == p
}

/// Suffix test.
pub open spec fn has_suffix(s: Seq<char>, p: Seq<char>) -> bool {
    p.len() <= s.len() && s.subrange(s.len() - p.len(), s.len() as int) == p
}

/// `s` with every repetition of the non-empty prefix `p` removed.
pub open spec fn strip_all(s: Seq<char>, p: Seq<char>) -> Seq<char>
    decreases s.len(),
{
    if p.len() > 0 && has_prefix(s, p) {
        strip_all(s.subrange(p.len() as int, s.len() as int), p)
    } else {
        s
    }
}

/// Value of a digit string read in base ten.
pub open spec fn num_val(s: Seq<char>) -> int
    decreases s.len(),
{
    if s.len() == 0 {
        0
    } else {
        num_val(s.drop_last()) * 10 + digit_val(s.last())
    }
}

/// Every character is a decimal digit.
pub open spec fn all_digits(s: Seq<char>) -> bool {
    forall|i: int| 0 <= i < s.len() ==> is_digit(#[trigger] s[i])
}

/// Ten to the given power.
pub open spec fn pow10(n: nat) -> int
    decreases n,
{
    if n == 0 {
        1
    } else {
        10 * pow10((n - 1) as nat)
    }
}

/// The two-digit, zero-padded decimal form of a value below one hundred.
pub open spec fn pad2(v: int) -> Seq<char> {
    seq![digit_char(v / 10), digit_char(v % 10)]
}

/// A digit string's value is below ten to its length.
pub proof fn lemma_num_val_bound(s: Seq<char>)
    requires
        all_digits(s),
    ensures
        0 <= num_val(s) < pow10(s.len()),
    decreases s.len(),
{
    if s.len() > 0 {
        assert(all_digits(s.drop_last()));
        lemma_num_val_bound(s.drop_last());
        assert(num_val(s.drop_last()) <= pow10((s.len() - 1) as nat) - 1);
        assert(pow10(s.len()) == 10 * pow10((s.len() - 1) as nat));
    }
}

/// Reading back a two-digit rendering yields the value.
pub proof fn lemma_pad2_val(v: int)
    requires
        0 <= v < 100,
    ensures
        pad2(v).len() == 2,
        all_digits(pad2(v)),
        num_val(pad2(v)) == v,
{
    let a = digit_char(v / 10);
    let b = digit_char(v % 10);
    let s = pad2(v);
    assert(digit_val(a) == v / 10);
    assert(digit_val(b) == v % 10);
    assert(s.last() == b);
    assert(s.drop_last() =~= seq![a]);
    assert(seq![a].last() == a);
    assert(seq![a].drop_last() =~= Seq::<char>::empty());
    assert(num_val(Seq::<char>::empty()) == 0);
    assert(num_val(seq![a]) == digit_val(a));
    assert(num_val(s) == digit_val(a) * 10 + digit_val(b));
}

/// The views of a sequence of strings.
pub open spec fn strs_view(v: Seq<String>) -> Seq<Seq<char>> {
    v.map_values(|x: String| x@)
}

/// `find_char` finds exactly the first occurrence.
pub proof fn lemma_find_char_at(s: Seq<char>, sep: char, k: int)
    requires
        0 <= k <= s.len(),
        forall|i: int| 0 <= i < k ==> #[trigger] s[i] != sep,
        k < s.len() ==> s[k] == sep,
    ensures
        find_char(s, sep) == if k == s.len() {
            -1
        } else {
            k
        },
    decreases s.len(),
{
    if s.len() > 0 && s[0] != sep {
        let t = s.drop_first();
        assert forall|i: int| 0 <= i < k - 1 implies #[trigger] t[i] != sep by {
            assert(s[i + 1] != sep);
        }
        lemma_find_char_at(t, sep, k - 1);
    }
}

/// Appending one piece extends the kept pieces at the end.
pub proof fn lemma_keep_nonempty_snoc(parts: Seq<Seq<char>>, x: Seq<char>)
    ensures
        keep_nonempty(parts.push(x)) == keep_nonempty(parts) + (if x.len() == 0 {
            Seq::<Seq<char>>::empty()
        } else {
            seq![x]
        }),
    decreases parts.len(),
{
    let tail: Seq<Seq<char>> = if x.len() == 0 {
        Seq::empty()
    } else {
        seq![x]
    };
    if parts.len() == 0 {
        let p = parts.push(x);
        assert(p[0] == x);
        assert(p.drop_first() =~= Seq::<Seq<char>>::empty());
        assert(keep_nonempty(Seq::<Seq<char>>::empty()) == Seq::<Seq<char>>::empty());
        assert(keep_nonempty(p) =~= keep_nonempty(parts) + tail);
    } else {
        lemma_keep_nonempty_snoc(parts.drop_first(), x);
        assert(parts.push(x).drop_first() =~= parts.drop_first().push(x));
        assert(parts.push(x)[0] == parts[0]);
        assert(keep_nonempty(parts.push(x)) =~= keep_nonempty(parts) + tail);
    }
}

/// Splits on a separator; empty pieces are kept, as `split_char` says.
pub fn split_str(s: &str, sep: char) -> (r: Vec<String>)
    ensures
        strs_view(r@) == split_char(s@, sep),
{
    let n: usize = s.unicode_len();
    let mut parts: Vec<String> = Vec::new();
    let mut j: usize = 0;
    let mut i: usize = 0;
    proof {
        assert(s@.subrange(0, n as int) =~= s@);
        assert(strs_view(parts@) + split_char(s@.subrange(0, n as int), sep) =~= split_char(
            s@,
            sep,
        ));
    }
    while i < n
        invariant
            0 <= j <= i <= n,
            n == s@.len(),
            forall|k: int| j <= k < i ==> #[trigger] s@[k] != sep,
            split_char(s@, sep) == strs_view(parts@) + split_char(
                s@.subrange(j as int, n as int),
                sep,
            ),
        decreases n - i,
    {
        if s.get_char(i) == sep {
            let piece = String::from_str(s.substring_char(j, i));
            proof {
                let t = s@.subrange(j as int, n as int);
                assert forall|k: int| 0 <= k < i - j implies #[trigger] t[k] != sep by {
                    assert(s@[j + k] != sep);
                }
                assert(t[i - j] == sep);
                lemma_find_char_at(t, sep, i - j);
                assert(t.subrange(0, i - j) =~= s@.subrange(j as int, i as int));
                assert(t.subrange(i - j + 1, t.len() as int) =~= s@.subrange(
                    i + 1,
                    n as int,
                ));
                assert(strs_view(parts@.push(piece)) =~= strs_view(parts@) + seq![piece@]);
                assert(strs_view(parts@) + seq![s@.subrange(j as int, i as int)] + split_char(
                    s@.subrange(i + 1, n as int),
                    sep,
                ) =~= strs_view(parts@.push(piece)) + split_char(s@.subrange(i + 1, n as int), sep));
            }
            parts.push(piece);
            j = i + 1;
        }
        i = i + 1;
    }
    let last = String::from_str(s.substring_char(j, n));
    proof {
        let t = s@.subrange(j as int, n as int);
        assert forall|k: int| 0 <= k < t.len() implies #[trigger] t[k] != sep by {
            assert(s@[j + k] != sep);
        }
        lemma_find_char_at(t, sep, t.len() as int);
        assert(split_char(t, sep) == seq![t]);
        assert(strs_view(parts@.push(last)) =~= strs_view(parts@) + seq![t]);
    }
    parts.push(last);
    parts
}

/// Keeps the non-empty strings, in order.
pub fn filter_nonempty(parts: &Vec<String>) -> (r: Vec<String>)
    ensures
        strs_view(r@) == keep_nonempty(strs_view(parts@)),
{
    let n = parts.len();
    let mut out: Vec<String> = Vec::new();
    let mut i: usize = 0;
    proof {
        assert(strs_view(parts@.subrange(0, 0)) =~= Seq::<Seq<char>>::empty());
        assert(strs_view(out@) =~= keep_nonempty(strs_view(parts@.subrange(0, 0))));
    }
    while i < n
        invariant
            0 <= i <= n,
            n == parts@.len(),
            strs_view(out@) == keep_nonempty(strs_view(parts@.subrange(0, i as int))),
        decreases n - i,
    {
        let piece = &parts[i];
        proof {
            let pre = parts@.subrange(0, i as int);
            let cur = parts@.subrange(0, i + 1);
            assert(cur =~= pre.push(parts@[i as int]));
            assert(strs_view(cur) =~= strs_view(pre).push(parts@[i as int]@));
            lemma_keep_nonempty_snoc(strs_view(pre), parts@[i as int]@);
        }
        if piece.as_str().unicode_len() > 0 {
            let copied = piece.clone();
            proof {
                assert(strs_view(out@.push(copied)) =~= strs_view(out@).push(copied@));
                assert(strs_view(out@).push(copied@) =~= strs_view(out@) + seq![
                    parts@[i as int]@,
                ]);
            }
            out.push(copied);
        } else {
            proof {
                assert(strs_view(out@) + Seq::<Seq<char>>::empty() =~= strs_view(out@));
            }
        }
        i = i + 1;
    }
    proof {
        assert(parts@.subrange(0, n as int) =~= parts@);
    }
    out
}

/// Removes every repetition of the prefix `p`.
pub fn strip_prefix_all(s: &str, p: &str) -> (r: String)
    requires
        p@.len() > 0,
    ensures
        r@ == strip_all(s@, p@),
{
    let n: usize = s.unicode_len();
    let m: usize = p.unicode_len();
    let mut o: usize = 0;
    proof {
        assert(s@.subrange(0, n as int) =~= s@);
    }
    loop
        invariant
            0 <= o <= n,
            n == s@.len(),
            m == p@.len(),
            m > 0,
            strip_all(s@, p@) == strip_all(s@.subrange(o as int, n as int), p@),
        decreases n - o,
    {
        let rem = s.substring_char(o, n);
        if str_has_prefix(rem, p) {
            proof {
                assert(rem@.subrange(m as int, rem@.len() as int) =~= s@.subrange(
                    o + m,
                    n as int,
                ));
            }
            o = o + m;
        } else {
            proof {
                assert(strip_all(rem@, p@) == rem@);
            }
            return String::from_str(rem);
        }
    }
}

/// Whether every character is a decimal digit, executable form.
pub fn str_all_digits(s: &str) -> (r: bool)
    ensures
        r == all_digits(s@),
{
    let n: usize = s.unicode_len();
    let mut i: usize = 0;
    while i < n
        invariant
            0 <= i <= n,
            n == s@.len(),
            forall|j: int| 0 <= j < i ==> is_digit(#[trigger] s@[j]),
        decreases n - i,
    {
        let v: u32 = s.get_char(i) as u32;
        if !(48 <= v && v <= 57) {
            return false;
        }
        i = i + 1;
    }
    true
}

/// Whitespace test, executable form.
pub fn char_is_ws(c: char) -> (r: bool)
    ensures
        r == is_ws(c),
{
    let v: u32 = c as u32;
    v == 0x09 || v == 0x0a || v == 0x0b || v == 0x0c || v == 0x0d || v == 0x20 || v == 0x85 || v
        == 0xa0 || v == 0x1680 || (0x2000 <= v && v <= 0x200a) || v == 0x2028 || v == 0x2029 || v
        == 0x202f || v == 0x205f || v == 0x3000
}

/// ASCII lower-casing, executable form.
pub fn char_lower(c: char) -> (r: char)
    ensures
        r == lower_char(c),
{
    let v: u32 = c as u32;
    if 65 <= v && v <= 90 {
        ((v + 32) as u8) as char
    } else {
        c
    }
}

/// Relates `trim_spec` to the bounds that the trimming loops compute.
proof fn lemma_trim_subrange(s: Seq<char>, lo: int, hi: int)
    requires
        0 <= lo <= hi <= s.len(),
        forall|i: int| 0 <= i < lo ==> is_ws(#[trigger] s[i]),
        forall|i: int| hi <= i < s.len() ==> is_ws(#[trigger] s[i]),
        lo < hi ==> !is_ws(s[lo]) && !is_ws(s[hi - 1]),
    ensures
        trim_spec(s) == s.subrange(lo, hi),
    decreases s.len(),
{
    if s.len() == 0 {
        assert(trim_spec(s) =~= s.subrange(lo, hi));
    } else if is_ws(s[0]) {
        let t = s.drop_first();
        if lo > 0 {
            lemma_trim_subrange(t, lo - 1, hi - 1);
            assert(t.subrange(lo - 1, hi - 1) =~= s.subrange(lo, hi));
        } else {
            assert(lo == hi);
            lemma_trim_subrange(t, 0, 0);
            assert(t.subrange(0, 0) =~= s.subrange(lo, hi));
        }
    } else if is_ws(s.last()) {
        let t = s.drop_last();
        assert(hi < s.len());
        lemma_trim_subrange(t, lo, hi);
        assert(t.subrange(lo, hi) =~= s.subrange(lo, hi));
    } else {
        assert(lo == 0);
        assert(hi == s.len());
        assert(trim_spec(s) == s);
        assert(s.subrange(0, s.len() as int) =~= s);
    }
}

/// Trimming never lengthens a string.
pub proof fn lemma_trim_le(s: Seq<char>)
    ensures
        trim_spec(s).len() <= s.len(),
    decreases s.len(),
{
    if s.len() > 0 {
        if is_ws(s[0]) {
            lemma_trim_le(s.drop_first());
        } else if is_ws(s.last()) {
            lemma_trim_le(s.drop_last());
        }
    }
}

/// A string equal to its own trim has no whitespace at either end.
pub proof fn lemma_trim_stable_ends(s: Seq<char>)
    requires
        trim_spec(s) == s,
        s.len() > 0,
    ensures
        !is_ws(s[0]),
        !is_ws(s.last()),
{
    lemma_trim_le(s.drop_first());
    lemma_trim_le(s.drop_last());
}

/// A string without whitespace at either end stays the same when trimmed.
pub proof fn lemma_trim_no_ws(s: Seq<char>)
    requires
        forall|i: int| 0 <= i < s.len() ==> !is_ws(#[trigger] s[i]),
    ensures
        trim_spec(s) == s,
{
    if s.len() > 0 {
        assert(!is_ws(s[0]));
        assert(!is_ws(s.last()));
    }
}

/// Removes leading and trailing whitespace.
pub fn trim(s: &str) -> (r: String)
    ensures
        r@ == trim_spec(s@),
{
    let len: usize = s.unicode_len();
    let mut lo: usize = 0;
    while lo < len && char_is_ws(s.get_char(lo))
        invariant
            0 <= lo <= len,
            len == s@.len(),
            forall|i: int| 0 <= i < lo ==> is_ws(#[trigger] s@[i]),
        decreases len - lo,
    {
        lo = lo + 1;
    }
    let mut hi: usize = len;
    while hi > lo && char_is_ws(s.get_char(hi - 1))
        invariant
            lo <= hi <= len,
            len == s@.len(),
            forall|i: int| 0 <= i < lo ==> is_ws(#[trigger] s@[i]),
            forall|i: int| hi <= i < len ==> is_ws(#[trigger] s@[i]),
        decreases hi,
    {
        hi = hi - 1;
    }
    proof {
        lemma_trim_subrange(s@, lo as int, hi as int);
    }
    String::from_str(s.substring_char(lo, hi))
}

/// Whether the ASCII lower-casing of `s` equals `target` exactly.
pub fn eq_lower(s: &str, target: &str) -> (r: bool)
    ensures
        r == (lower_seq(s@) == target@),
{
    let n: usize = s.unicode_len();
    if n != target.unicode_len() {
        proof {
            assert(lower_seq(s@).len() == s@.len());
        }
        return false;
    }
    let mut i: usize = 0;
    while i < n
        invariant
            0 <= i <= n,
            n == s@.len(),
            n == target@.len(),
            forall|j: int| 0 <= j < i ==> lower_char(#[trigger] s@[j]) == target@[j],
        decreases n - i,
    {
        if char_lower(s.get_char(i)) != target.get_char(i) {
            proof {
                assert(lower_seq(s@)[i as int] == lower_char(s@[i as int]));
            }
            return false;
        }
        i = i + 1;
    }
    proof {
        assert(lower_seq(s@) =~= target@);
    }
    true
}

/// Prefix test, executable form.
pub fn str_has_prefix(s: &str, p: &str) -> (r: bool)
    ensures
        r == has_prefix(s@, p@),
{
    let n: usize = s.unicode_len();
    let m: usize = p.unicode_len();
    if m > n {
        return false;
    }
    let mut i: usize = 0;
    while i < m
        invariant
            0 <= i <= m <= n,
            n == s@.len(),
            m == p@.len(),
            forall|j: int| 0 <= j < i ==> #[trigger] s@[j] == p@[j],
        decreases m - i,
    {
        if s.get_char(i) != p.get_char(i) {
            proof {
                assert(s@.subrange(0, p@.len() as int)[i as int] == s@[i as int]);
            }
            return false;
        }
        i = i + 1;
    }
    proof {
        assert(s@.subrange(0, p@.len() as int) =~= p@);
    }
    true
}

/// Suffix test, executable form.
pub fn str_has_suffix(s: &str, p: &str) -> (r: bool)
    ensures
        r == has_suffix(s@, p@),
{
    let n: usize = s.unicode_len();
    let m: usize = p.unicode_len();
    if m > n {
        return false;
    }
    let off: usize = n - m;
    let mut i: usize = 0;
    while i < m
        invariant
            0 <= i <= m <= n,
            off == n - m,
            n == s@.len(),
            m == p@.len(),
            forall|j: int| 0 <= j < i ==> #[trigger] s@[off + j] == p@[j],
        decreases m - i,
    {
        if s.get_char(off + i) != p.get_char(i) {
            proof {
                assert(s@.subrange(s@.len() - p@.len(), s@.len() as int)[i as int] == s@[
                    off + i
                ]);
            }
            return false;
        }
        i = i + 1;
    }
    proof {
        assert forall|j: int| 0 <= j < p@.len() implies s@.subrange(
            s@.len() - p@.len(),
            s@.len() as int,
        )[j] == p@[j] by {
            assert(s@[off + j] == p@[j]);
        }
        assert(s@.subrange(s@.len() - p@.len(), s@.len() as int) =~= p@);
    }
    true
}

/// The value of a short digit string.
pub fn num_from_digits(s: &str) -> (r: u32)
    requires
        all_digits(s@),
        s@.len() <= 9,
    ensures
        r == num_val(s@),
{
    let n: usize = s.unicode_len();
    let mut i: usize = 0;
    let mut acc: u32 = 0;
    while i < n
        invariant
            0 <= i <= n <= 9,
            n == s@.len(),
            all_digits(s@),
            acc == num_val(s@.subrange(0, i as int)),
            acc < pow10(i as nat),
        decreases n - i,
    {
        let c = s.get_char(i);
        let d: u32 = c as u32 - 48;
        proof {
            let pre = s@.subrange(0, i as int);
            let cur = s@.subrange(0, i + 1);
            assert(cur.drop_last() =~= pre);
            assert(cur.last() == s@[i as int]);
            assert(all_digits(pre));
            lemma_num_val_bound(pre);
            assert(pow10((i + 1) as nat) == 10 * pow10(i as nat));
            assert(pow10(8) == 100000000) by {
                assert(pow10(0) == 1);
                assert(pow10(1) == 10);
                assert(pow10(2) == 100);
                assert(pow10(3) == 1000);
                assert(pow10(4) == 10000);
                assert(pow10(5) == 100000);
                assert(pow10(6) == 1000000);
                assert(pow10(7) == 10000000);
            }
            assert(pow10(i as nat) <= pow10(8)) by {
                lemma_pow10_le(i as nat, 8);
            }
        }
        acc = acc * 10 + d;
        i = i + 1;
    }
    proof {
        assert(s@.subrange(0, n as int) =~= s@);
    }
    acc
}

/// Larger exponents give larger powers of ten.
proof fn lemma_pow10_le(a: nat, b: nat)
    requires
        a <= b,
    ensures
        pow10(a) <= pow10(b),
        pow10(a) >= 1,
    decreases b,
{
    if a < b {
        lemma_pow10_le(a, (b - 1) as nat);
    } else if a > 0 {
        lemma_pow10_le((a - 1) as nat, (b - 1) as nat);
    }
}

/// One decimal digit as a string literal.
pub fn digit_str(d: u32) -> (r: &'static str)
    requires
        d < 10,
    ensures
        r@ == seq![digit_char(d as int)],
{
    if d == 0 {
        proof {
            reveal_strlit("0");
        }
        assert("0"@ =~= seq![digit_char(0)]);
        "0"
    } else if d == 1 {
        proof {
            reveal_strlit("1");
        }
        assert("1"@ =~= seq![digit_char(1)]);
        "1"
    } else if d == 2 {
        proof {
            reveal_strlit("2");
        }
        assert("2"@ =~= seq![digit_char(2)]);
        "2"
    } else if d == 3 {
        proof {
            reveal_strlit("3");
        }
        assert("3"@ =~= seq![digit_char(3)]);
        "3"
    } else if d == 4 {
        proof {
            reveal_strlit("4");
        }
        assert("4"@ =~= seq![digit_char(4)]);
        "4"
    } else if d == 5 {
        proof {
            reveal_strlit("5");
        }
        assert("5"@ =~= seq![digit_char(5)]);
        "5"
    } else if d == 6 {
        proof {
            reveal_strlit("6");
        }
        assert("6"@ =~= seq![digit_char(6)]);
        "6"
    } else if d == 7 {
        proof {
            reveal_strlit("7");
        }
        assert("7"@ =~= seq![digit_char(7)]);
        "7"
    } else if d == 8 {
        proof {
            reveal_strlit("8");
        }
        assert("8"@ =~= seq![digit_char(8)]);
        "8"
    } else {
        proof {
            reveal_strlit("9");
        }
        assert("9"@ =~= seq![digit_char(9)]);
        "9"
    }
}

/// Appends the two-digit, zero-padded form of `v`.
pub fn append_2digits(out: &mut String, v: u32)
    requires
        v < 100,
    ensures
        final(out)@ == old(out)@ + pad2(v as int),
{
    let hi = digit_str(v / 10);
    let lo = digit_str(v % 10);
    out.append(hi);
    out.append(lo);
    proof {
        assert(old(out)@ + pad2(v as int) =~= old(out)@ + hi@ + lo@);
    }
}

} // verus!
