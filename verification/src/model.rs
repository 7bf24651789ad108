//! Mathematical model of the cookie header grammar.
//!
//! A raw `Cookie` header value is a string of `key=value` pairs separated by
//! the two-character delimiter `"; "`.  Decoding splits the string on that
//! delimiter, drops every segment without an `=`, trims the key and the value,
//! strips the secure-name prefix from the key when present, and collects the
//! pairs into a map in which a later pair overwrites an earlier one with the
//! same key.  The spec functions here state that grammar over `Seq<char>` and
//! `Map<Seq<char>, Seq<char>>`; the executable code is proved against them.

use vstd::prelude::*;

verus! {

/// The name prefix that marks a cookie as bound to a secure origin.
pub open spec fn secure_prefix() -> Seq<char> {
    seq!['_', '_', 'S', 'e', 'c', 'u', 'r', 'e', '-']
}

/// The fixed attribute suffix carried by every produced `Set-Cookie` value:
/// `Path=/; SameSite=Lax; Secure; HttpOnly`.
pub open spec fn cookie_attributes() -> Seq<char> {
    seq![
        'P', 'a', 't', 'h', '=', '/', ';', ' ',
        'S', 'a', 'm', 'e', 'S', 'i', 't', 'e', '=', 'L', 'a', 'x', ';', ' ',
        'S', 'e', 'c', 'u', 'r', 'e', ';', ' ',
        'H', 't', 't', 'p', 'O', 'n', 'l', 'y',
    ]
}

/// The separator between `key=value` pairs: `"; "`.
pub open spec fn pair_delim() -> Seq<char> {
    seq![';', ' ']
}

/// The text that introduces the expiry attribute: `"; Max-Age="`.
pub open spec fn max_age_label() -> Seq<char> {
    seq![';', ' ', 'M', 'a', 'x', '-', 'A', 'g', 'e', '=']
}

/// The value written into a header that expires a cookie at once.
pub open spec fn expired_value() -> Seq<char> {
    seq!['e', 'x', 'p', 'i', 'r', 'e', 'd']
}

/// A Unicode white space character, one of those that trimming removes.
pub open spec fn is_ws(c: char) -> bool {
    ||| c == '\u{0009}'
    ||| c == '\u{000A}'
    ||| c == '\u{000B}'
    ||| c == '\u{000C}'
    ||| c == '\u{000D}'
    ||| c == ' '
    ||| c == '\u{0085}'
    ||| c == '\u{00A0}'
    ||| c == '\u{1680}'
    ||| c == '\u{2000}'
    ||| c == '\u{2001}'
    ||| c == '\u{2002}'
    ||| c == '\u{2003}'
    ||| c == '\u{2004}'
    ||| c == '\u{2005}'
    ||| c == '\u{2006}'
    ||| c == '\u{2007}'
    ||| c == '\u{2008}'
    ||| c == '\u{2009}'
    ||| c == '\u{200A}'
    ||| c == '\u{2028}'
    ||| c == '\u{2029}'
    ||| c == '\u{202F}'
    ||| c == '\u{205F}'
    ||| c == '\u{3000}'
}

/// The pair delimiter `"; "` stands at position `i` of `s`.
pub open spec fn delim_at(s: Seq<char>, i: int) -> bool {
    0 <= i && i + 2 <= s.len() && s[i] == ';' && s[i + 1] == ' '
}

/// No occurrence of the pair delimiter anywhere in `s`.
pub open spec fn delim_free(s: Seq<char>) -> bool {
    forall|i: int| !delim_at(s, i)
}

/// Index of the first occurrence of the pair delimiter in `s`, or -1.
pub open spec fn find_delim(s: Seq<char>) -> int
    decreases s.len(),
{
    if s.len() >= 2 && s[0] == ';' && s[1] == ' ' {
        0
    } else if s.len() == 0 {
        -1
    } else {
        let r = find_delim(s.drop_first());
        if r < 0 {
            -1
        } else {
            r + 1
        }
    }
}

/// `find_delim` returns -1 exactly when `s` holds no delimiter, and otherwise
/// the position of the leftmost one.
pub proof fn lemma_find_delim(s: Seq<char>)
    ensures
        find_delim(s) >= -1,
        find_delim(s) == -1 ==> forall|i: int| !delim_at(s, i),
        find_delim(s) >= 0 ==> delim_at(s, find_delim(s)),
        find_delim(s) >= 0 ==> forall|i: int| 0 <= i < find_delim(s) ==> !delim_at(s, i),
    decreases s.len(),
{
    if s.len() >= 2 && s[0] == ';' && s[1] == ' ' {
    } else if s.len() == 0 {
        assert(forall|i: int| !delim_at(s, i));
    } else {
        let t = s.drop_first();
        lemma_find_delim(t);
        assert forall|i: int| 1 <= i && delim_at(s, i) implies delim_at(t, i - 1) by {
            assert(t[i - 1] == s[i]);
            assert(t[i] == s[i + 1]);
        }
        assert forall|i: int| 0 <= i && delim_at(t, i) implies delim_at(s, i + 1) by {
            assert(s[i + 1] == t[i]);
            assert(s[i + 2] == t[i + 1]);
        }
        assert(!delim_at(s, 0));
        let r = find_delim(t);
        if r < 0 {
            assert forall|i: int| !delim_at(s, i) by {
                if 1 <= i && delim_at(s, i) {
                    assert(delim_at(t, i - 1));
                }
            }
        } else {
            assert(delim_at(s, r + 1));
            assert forall|i: int| 0 <= i < r + 1 implies !delim_at(s, i) by {
                if 1 <= i && delim_at(s, i) {
                    assert(delim_at(t, i - 1));
                }
            }
        }
    }
}

/// If a delimiter stands at `d` and nowhere earlier, `find_delim` returns `d`.
pub proof fn lemma_find_delim_is(s: Seq<char>, d: int)
    requires
        delim_at(s, d),
        forall|i: int| 0 <= i < d ==> !delim_at(s, i),
    ensures
        find_delim(s) == d,
{
    lemma_find_delim(s);
}

/// If no delimiter stands anywhere in `s`, `find_delim` returns -1.
pub proof fn lemma_find_delim_none(s: Seq<char>)
    requires
        delim_free(s),
    ensures
        find_delim(s) == -1,
{
    lemma_find_delim(s);
}

/// The segments of `s`, split on the pair delimiter.  An input without a
/// delimiter, the empty input included, is a single segment.
pub open spec fn split_segments(s: Seq<char>) -> Seq<Seq<char>>
    decreases s.len(),
{
    let i = find_delim(s);
    if 0 <= i && i + 2 <= s.len() {
        seq![s.take(i)] + split_segments(s.skip(i + 2))
    } else {
        seq![s]
    }
}

/// How `split_segments` unfolds, phrased over `find_delim` alone.
pub proof fn lemma_split_segments_unfold(s: Seq<char>)
    ensures
        find_delim(s) < 0 ==> split_segments(s) == seq![s],
        find_delim(s) >= 0 ==> split_segments(s) == seq![s.take(find_delim(s))] + split_segments(
            s.skip(find_delim(s) + 2),
        ),
{
    lemma_find_delim(s);
}

/// Index of the first `=` in `s`, or -1.
pub open spec fn find_eq(s: Seq<char>) -> int
    decreases s.len(),
{
    if s.len() == 0 {
        -1
    } else if s[0] == '=' {
        0
    } else {
        let r = find_eq(s.drop_first());
        if r < 0 {
            -1
        } else {
            r + 1
        }
    }
}

/// `find_eq` returns -1 exactly when `s` holds no `=`, and otherwise the
/// position of the leftmost one.
pub proof fn lemma_find_eq(s: Seq<char>)
    ensures
        find_eq(s) >= -1,
        find_eq(s) == -1 ==> forall|i: int| 0 <= i < s.len() ==> s[i] != '=',
        find_eq(s) >= 0 ==> find_eq(s) < s.len() && s[find_eq(s)] == '=',
        find_eq(s) >= 0 ==> forall|i: int| 0 <= i < find_eq(s) ==> s[i] != '=',
    decreases s.len(),
{
    if s.len() == 0 {
    } else if s[0] == '=' {
    } else {
        let t = s.drop_first();
        lemma_find_eq(t);
        assert(forall|i: int| 1 <= i < s.len() ==> s[i] == t[i - 1]);
    }
}

/// If an `=` stands at `d` and nowhere earlier, `find_eq` returns `d`.
pub proof fn lemma_find_eq_is(s: Seq<char>, d: int)
    requires
        0 <= d < s.len(),
        s[d] == '=',
        forall|i: int| 0 <= i < d ==> s[i] != '=',
    ensures
        find_eq(s) == d,
{
    lemma_find_eq(s);
}

/// `s` with its leading white space removed.
pub open spec fn trim_start_ws(s: Seq<char>) -> Seq<char>
    decreases s.len(),
{
    if s.len() > 0 && is_ws(s[0]) {
        trim_start_ws(s.drop_first())
    } else {
        s
    }
}

/// `s` with its trailing white space removed.
pub open spec fn trim_end_ws(s: Seq<char>) -> Seq<char>
    decreases s.len(),
{
    if s.len() > 0 && is_ws(s.last()) {
        trim_end_ws(s.drop_last())
    } else {
        s
    }
}

/// `s` with surrounding white space removed, as `str::trim` yields it.
pub open spec fn trim_ws(s: Seq<char>) -> Seq<char> {
    trim_end_ws(trim_start_ws(s))
}

/// If the first `a` characters of `s` are white space and, unless `a` is the
/// length, the one after them is not, trimming the start drops exactly them.
pub proof fn lemma_trim_start_at(s: Seq<char>, a: int)
    requires
        0 <= a <= s.len(),
        forall|j: int| 0 <= j < a ==> is_ws(s[j]),
        a < s.len() ==> !is_ws(s[a]),
    ensures
        trim_start_ws(s) == s.skip(a),
    decreases a,
{
    if a == 0 {
        assert(s.skip(0) =~= s);
    } else {
        let t = s.drop_first();
        assert(forall|j: int| 0 <= j < a - 1 ==> t[j] == s[j + 1] && is_ws(t[j]));
        lemma_trim_start_at(t, a - 1);
        assert(t.skip(a - 1) =~= s.skip(a));
    }
}

/// If the characters of `s` from `b` on are white space and, unless `b` is
/// zero, the one before them is not, trimming the end drops exactly them.
pub proof fn lemma_trim_end_at(s: Seq<char>, b: int)
    requires
        0 <= b <= s.len(),
        forall|j: int| b <= j < s.len() ==> is_ws(s[j]),
        b > 0 ==> !is_ws(s[b - 1]),
    ensures
        trim_end_ws(s) == s.take(b),
    decreases s.len() - b,
{
    if b == s.len() {
        assert(s.take(b) =~= s);
    } else {
        let t = s.drop_last();
        assert(is_ws(s.last()));
        assert(forall|j: int| b <= j < t.len() ==> t[j] == s[j] && is_ws(t[j]));
        lemma_trim_end_at(t, b);
        assert(t.take(b) =~= s.take(b));
    }
}

/// Trimming a string whose first non-white-space character stands at `a` and
/// whose last one stands at `b - 1` yields exactly the part between them.
pub proof fn lemma_trim_ws_bounds(s: Seq<char>, a: int, b: int)
    requires
        0 <= a < b <= s.len(),
        forall|j: int| 0 <= j < a ==> is_ws(s[j]),
        forall|j: int| b <= j < s.len() ==> is_ws(s[j]),
        !is_ws(s[a]),
        !is_ws(s[b - 1]),
    ensures
        trim_ws(s) == s.subrange(a, b),
{
    lemma_trim_start_at(s, a);
    let t = s.skip(a);
    assert(forall|j: int| 0 <= j < t.len() ==> t[j] == s[a + j]);
    lemma_trim_end_at(t, b - a);
    assert(t.take(b - a) =~= s.subrange(a, b));
}

/// Trimming a string of white space alone yields the empty string.
pub proof fn lemma_trim_ws_all(s: Seq<char>)
    requires
        forall|j: int| 0 <= j < s.len() ==> is_ws(s[j]),
    ensures
        trim_ws(s) == Seq::<char>::empty(),
{
    lemma_trim_start_at(s, s.len() as int);
    assert(s.skip(s.len() as int) =~= Seq::<char>::empty());
}

/// A string that neither starts nor ends with white space is its own trim.
pub proof fn lemma_trim_ws_id(s: Seq<char>)
    requires
        s.len() > 0 ==> !is_ws(s[0]) && !is_ws(s.last()),
    ensures
        trim_ws(s) == s,
{
    if s.len() == 0 {
        lemma_trim_ws_all(s);
        assert(s =~= Seq::<char>::empty());
    } else {
        lemma_trim_ws_bounds(s, 0, s.len() as int);
        assert(s.subrange(0, s.len() as int) =~= s);
    }
}

/// Trimming never lengthens a string.
pub proof fn lemma_trim_start_ws_len(s: Seq<char>)
    ensures
        trim_start_ws(s).len() <= s.len(),
    decreases s.len(),
{
    if s.len() > 0 && is_ws(s[0]) {
        lemma_trim_start_ws_len(s.drop_first());
    }
}

/// Trimming the start yields a suffix of the string.
pub proof fn lemma_trim_start_ws_suffix(s: Seq<char>)
    ensures
        trim_start_ws(s).len() <= s.len(),
        trim_start_ws(s) == s.skip(s.len() - trim_start_ws(s).len()),
    decreases s.len(),
{
    lemma_trim_start_ws_len(s);
    if s.len() > 0 && is_ws(s[0]) {
        let t = s.drop_first();
        lemma_trim_start_ws_suffix(t);
        assert(t.skip(t.len() - trim_start_ws(t).len()) =~= s.skip(
            s.len() - trim_start_ws(s).len(),
        ));
    } else {
        assert(s.skip(0) =~= s);
    }
}

/// A non-empty string equal to its own trim neither starts nor ends with
/// white space.
pub proof fn lemma_trim_ws_id_chars(s: Seq<char>)
    requires
        trim_ws(s) == s,
        s.len() > 0,
    ensures
        !is_ws(s[0]),
        !is_ws(s.last()),
{
    lemma_trim_start_ws_suffix(s);
    let t = trim_start_ws(s);
    if is_ws(s[0]) {
        assert(t == trim_start_ws(s.drop_first()));
        lemma_trim_start_ws_len(s.drop_first());
        lemma_trim_end_ws_len(t);
        assert(trim_ws(s).len() < s.len());
    }
    if is_ws(s.last()) {
        if t.len() == 0 {
            assert(trim_ws(s).len() == 0);
        } else {
            assert(t.last() == s.last());
            assert(trim_end_ws(t) == trim_end_ws(t.drop_last()));
            lemma_trim_end_ws_len(t.drop_last());
            assert(trim_ws(s).len() < t.len());
            lemma_trim_start_ws_len(s);
        }
    }
}

/// Trimming the end never lengthens a string.
pub proof fn lemma_trim_end_ws_len(s: Seq<char>)
    ensures
        trim_end_ws(s).len() <= s.len(),
    decreases s.len(),
{
    if s.len() > 0 && is_ws(s.last()) {
        lemma_trim_end_ws_len(s.drop_last());
    }
}

/// The key with the secure-name prefix removed when it carries it.
pub open spec fn strip_secure_prefix(k: Seq<char>) -> Seq<char> {
    if k.len() >= 9 && k.subrange(0, 9) == secure_prefix() {
        k.skip(9)
    } else {
        k
    }
}

/// The processed pair of one segment: `None` for a segment without `=`;
/// otherwise the trimmed, prefix-stripped key and the trimmed value.
pub open spec fn segment_pair(seg: Seq<char>) -> Option<(Seq<char>, Seq<char>)> {
    let i = find_eq(seg);
    if i >= 0 {
        Some((strip_secure_prefix(trim_ws(seg.take(i))), trim_ws(seg.skip(i + 1))))
    } else {
        None
    }
}

/// `m` after one segment: unchanged for a dropped segment, else with the
/// segment's pair inserted.
pub open spec fn apply_segment(
    m: Map<Seq<char>, Seq<char>>,
    seg: Seq<char>,
) -> Map<Seq<char>, Seq<char>> {
    match segment_pair(seg) {
        Some(p) => m.insert(p.0, p.1),
        None => m,
    }
}

/// `m` after a run of segments, applied left to right, so that a later pair
/// overwrites an earlier one with the same key.
pub open spec fn apply_segments(
    m: Map<Seq<char>, Seq<char>>,
    segs: Seq<Seq<char>>,
) -> Map<Seq<char>, Seq<char>>
    decreases segs.len(),
{
    if segs.len() == 0 {
        m
    } else {
        apply_segments(apply_segment(m, segs[0]), segs.drop_first())
    }
}

/// Applying a single segment folds it into the map.
pub proof fn lemma_apply_segments_singleton(m: Map<Seq<char>, Seq<char>>, seg: Seq<char>)
    ensures
        apply_segments(m, seq![seg]) == apply_segment(m, seg),
{
    assert(seq![seg].drop_first() =~= Seq::<Seq<char>>::empty());
    assert(apply_segments(apply_segment(m, seg), seq![seg].drop_first()) == apply_segment(m, seg));
}

/// Applying a non-empty run of segments folds in the first and goes on.
pub proof fn lemma_apply_segments_cons(m: Map<Seq<char>, Seq<char>>, segs: Seq<Seq<char>>)
    requires
        segs.len() > 0,
    ensures
        apply_segments(m, segs) == apply_segments(apply_segment(m, segs[0]), segs.drop_first()),
{
}

/// The mapping that decoding a raw `Cookie` header value yields.
pub open spec fn spec_parse(s: Seq<char>) -> Map<Seq<char>, Seq<char>> {
    apply_segments(Map::empty(), split_segments(s))
}

/// The digit character for `d`, a value below ten.
pub open spec fn dec_digit(d: nat) -> char {
    if d == 0 {
        '0'
    } else if d == 1 {
        '1'
    } else if d == 2 {
        '2'
    } else if d == 3 {
        '3'
    } else if d == 4 {
        '4'
    } else if d == 5 {
        '5'
    } else if d == 6 {
        '6'
    } else if d == 7 {
        '7'
    } else if d == 8 {
        '8'
    } else {
        '9'
    }
}

/// The decimal rendering of `n`, without leading zeros except for zero itself.
pub open spec fn dec_rep(n: nat) -> Seq<char>
    decreases n,
{
    if n < 10 {
        seq![dec_digit(n)]
    } else {
        dec_rep(n / 10).push(dec_digit(n % 10))
    }
}

/// The `Set-Cookie` value for a persistent cookie:
/// `__Secure-<name>=<value>; Max-Age=<max_age>; <attributes>`.
pub open spec fn spec_persistent(name: Seq<char>, value: Seq<char>, max_age: nat) -> Seq<char> {
    secure_prefix() + name + seq!['='] + value + max_age_label() + dec_rep(max_age) + pair_delim()
        + cookie_attributes()
}

/// The `Set-Cookie` value that expires a cookie at once.
pub open spec fn spec_expired(name: Seq<char>) -> Seq<char> {
    spec_persistent(name, expired_value(), 0)
}

/// The `Set-Cookie` value for a session cookie, without an expiry:
/// `__Secure-<name>=<value>; <attributes>`.
pub open spec fn spec_session(name: Seq<char>, value: Seq<char>) -> Seq<char> {
    secure_prefix() + name + seq!['='] + value + pair_delim() + cookie_attributes()
}

} // verus!
