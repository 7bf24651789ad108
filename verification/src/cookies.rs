//! Parsing of raw `Cookie` header values and construction of `Set-Cookie`
//! header values.
//!
//! Decoding is lenient: a segment without an `=` is dropped and the remaining
//! segments still decode.  Encoding prepends the secure-name prefix to the
//! cookie name and appends a fixed set of security attributes; nothing is
//! validated, so a name or value holding `;` or a newline produces a broken
//! header (the caller's responsibility).

use vstd::prelude::*;
use vstd::string::StrSliceExecFns;
use vstd::string::StringExecFns;

use crate::cookie_map::CookieMap;
use crate::model::{
    cookie_attributes, dec_digit, dec_rep, delim_at, expired_value, find_delim, find_eq, is_ws,
    lemma_find_delim, lemma_find_eq, lemma_split_segments_unfold, lemma_trim_ws_all,
    lemma_trim_ws_bounds, max_age_label, pair_delim, secure_prefix, segment_pair, apply_segment,
    apply_segments, spec_expired, spec_parse, spec_persistent, spec_session, split_segments,
    strip_secure_prefix, trim_ws,
};

verus! {

/// Whether `c` is white space that trimming removes.
fn is_ws_char(c: char) -> (r: bool)
    ensures
        r == is_ws(c),
{
    c == '\u{0009}' || c == '\u{000A}' || c == '\u{000B}' || c == '\u{000C}' || c == '\u{000D}'
        || c == ' ' || c == '\u{0085}' || c == '\u{00A0}' || c == '\u{1680}' || c == '\u{2000}'
        || c == '\u{2001}' || c == '\u{2002}' || c == '\u{2003}' || c == '\u{2004}'
        || c == '\u{2005}' || c == '\u{2006}' || c == '\u{2007}' || c == '\u{2008}'
        || c == '\u{2009}' || c == '\u{200A}' || c == '\u{2028}' || c == '\u{2029}'
        || c == '\u{202F}' || c == '\u{205F}' || c == '\u{3000}'
}

/// Position of the first `"; "` in `s`, if any.
fn find_first_delim(s: &str) -> (r: Option<usize>)
    ensures
        match r {
            Some(d) => find_delim(s@) == d as int && delim_at(s@, d as int),
            None => find_delim(s@) == -1,
        },
{
    let n = s.unicode_len();
    let mut i: usize = 0;
    while n - i > 1
        invariant
            n == s@.len(),
            i <= n,
            forall|j: int| 0 <= j < i ==> !delim_at(s@, j),
        decreases n - i,
    {
        if s.get_char(i) == ';' && s.get_char(i + 1) == ' ' {
            proof {
                lemma_find_delim(s@);
                assert(delim_at(s@, i as int));
            }
            return Some(i);
        }
        i += 1;
    }
    proof {
        assert forall|j: int| !delim_at(s@, j) by {
            if delim_at(s@, j) {
                assert(j + 2 <= n);
                assert(j < i);
            }
        }
        lemma_find_delim(s@);
    }
    None
}

/// Position of the first `=` in `s`, if any.
fn find_first_eq(s: &str) -> (r: Option<usize>)
    ensures
        match r {
            Some(d) => find_eq(s@) == d as int && (d as int) < s@.len() && s@[d as int] == '=',
            None => find_eq(s@) == -1,
        },
{
    let n = s.unicode_len();
    let mut i: usize = 0;
    while i < n
        invariant
            n == s@.len(),
            i <= n,
            forall|j: int| 0 <= j < i ==> s@[j] != '=',
        decreases n - i,
    {
        if s.get_char(i) == '=' {
            proof {
                lemma_find_eq(s@);
            }
            return Some(i);
        }
        i += 1;
    }
    proof {
        lemma_find_eq(s@);
    }
    None
}

/// `s` with surrounding white space removed.
fn trim_str<'a>(s: &'a str) -> (r: &'a str)
    ensures
        r@ == trim_ws(s@),
{
    let n = s.unicode_len();
    let mut a: usize = 0;
    while a < n && is_ws_char(s.get_char(a))
        invariant
            n == s@.len(),
            a <= n,
            forall|j: int| 0 <= j < a ==> is_ws(s@[j]),
        decreases n - a,
    {
        a += 1;
    }
    if a == n {
        proof {
            lemma_trim_ws_all(s@);
            assert(s@.subrange(n as int, n as int) =~= Seq::<char>::empty());
        }
        return s.substring_char(n, n);
    }
    let mut b: usize = n;
    while is_ws_char(s.get_char(b - 1))
        invariant
            n == s@.len(),
            a < b <= n,
            !is_ws(s@[a as int]),
            forall|j: int| b <= j < n ==> is_ws(s@[j]),
        decreases b,
    {
        b -= 1;
    }
    proof {
        lemma_trim_ws_bounds(s@, a as int, b as int);
    }
    s.substring_char(a, b)
}

/// Whether `s` starts with the secure-name prefix.
fn has_secure_prefix(s: &str) -> (r: bool)
    ensures
        r == (s@.len() >= 9 && s@.subrange(0, 9) == secure_prefix()),
{
    let n = s.unicode_len();
    if n < 9 {
        return false;
    }
    let r = s.get_char(0) == '_' && s.get_char(1) == '_' && s.get_char(2) == 'S' && s.get_char(3)
        == 'e' && s.get_char(4) == 'c' && s.get_char(5) == 'u' && s.get_char(6) == 'r'
        && s.get_char(7) == 'e' && s.get_char(8) == '-';
    proof {
        let p = s@.subrange(0, 9);
        assert(forall|j: int| 0 <= j < 9 ==> p[j] == s@[j]);
        if r {
            assert(p =~= secure_prefix());
        } else if p == secure_prefix() {
            assert(p[0] == '_' && p[1] == '_' && p[2] == 'S' && p[3] == 'e' && p[4] == 'c' && p[5]
                == 'u' && p[6] == 'r' && p[7] == 'e' && p[8] == '-');
        }
    }
    r
}

/// The processed pair of one segment: `None` when it lacks an `=`, else the
/// trimmed, prefix-stripped key and the trimmed value.
fn parse_segment(seg: &str) -> (r: Option<(String, String)>)
    ensures
        match r {
            Some(kv) => segment_pair(seg@) == Some((kv.0@, kv.1@)),
            None => segment_pair(seg@) is None,
        },
{
    match find_first_eq(seg) {
        None => None,
        Some(i) => {
            let n = seg.unicode_len();
            let key_raw = seg.substring_char(0, i);
            let val_raw = seg.substring_char(i + 1, n);
            let key_trimmed = trim_str(key_raw);
            let value = trim_str(val_raw);
            let key = if has_secure_prefix(key_trimmed) {
                let kn = key_trimmed.unicode_len();
                let k = key_trimmed.substring_char(9, kn);
                proof {
                    assert(key_trimmed@.subrange(9, key_trimmed@.len() as int) =~= key_trimmed@.skip(
                        9,
                    ));
                }
                k
            } else {
                key_trimmed
            };
            proof {
                assert(seg@.subrange(0, i as int) =~= seg@.take(i as int));
                assert(seg@.subrange(i + 1, n as int) =~= seg@.skip(i + 1));
                assert(key@ == strip_secure_prefix(trim_ws(seg@.take(i as int))));
                assert(value@ == trim_ws(seg@.skip(i + 1)));
            }
            Some((key.to_owned(), value.to_owned()))
        },
    }
}

/// Fold one segment into the map under construction.
fn insert_segment(m: &mut CookieMap, seg: &str)
    ensures
        final(m)@ == apply_segment(old(m)@, seg@),
{
    match parse_segment(seg) {
        Some(kv) => m.insert(kv.0, kv.1),
        None => (),
    }
}

/// Decode a raw `Cookie` header value into a mapping of cookie names to
/// values.
///
/// The input is split on `"; "`; a segment without an `=` is dropped, the key
/// and the value around the first `=` are trimmed of surrounding white space,
/// a key carrying the secure-name prefix loses it, and a later pair
/// overwrites an earlier one with the same key.  The empty input decodes to
/// the empty mapping, and no input is an error.
pub fn parse(cookie_string: &str) -> (m: CookieMap)
    ensures
        m@ == spec_parse(cookie_string@),
{
    let mut m = CookieMap::new();
    let mut rest: &str = cookie_string;
    loop
        invariant_except_break
            apply_segments(m@, split_segments(rest@)) == spec_parse(cookie_string@),
        ensures
            m@ == spec_parse(cookie_string@),
        decreases rest@.len(),
    {
        let ghost old_rest = rest@;
        let ghost m_prev = m@;
        match find_first_delim(rest) {
            Some(d) => {
                let seg = rest.substring_char(0, d);
                insert_segment(&mut m, seg);
                let n = rest.unicode_len();
                rest = rest.substring_char(d + 2, n);
                proof {
                    lemma_split_segments_unfold(old_rest);
                    assert(old_rest.subrange(0, d as int) =~= old_rest.take(d as int));
                    assert(old_rest.subrange(d + 2, old_rest.len() as int) =~= old_rest.skip(
                        d + 2,
                    ));
                    let segs = split_segments(old_rest);
                    assert(segs == seq![seg@] + split_segments(rest@));
                    assert(segs[0] == seg@);
                    assert(segs.drop_first() =~= split_segments(rest@));
                }
            },
            None => {
                insert_segment(&mut m, rest);
                proof {
                    lemma_split_segments_unfold(old_rest);
                    let segs = split_segments(old_rest);
                    assert(segs == seq![old_rest]);
                    assert(segs[0] == old_rest);
                    assert(segs.drop_first() =~= Seq::<Seq<char>>::empty());
                    assert(apply_segments(m@, segs.drop_first()) == m@);
                }
                break ;
            },
        }
    }
    m
}

/// The one-character string for the digit `d`.
fn digit_str(d: u32) -> (r: &'static str)
    requires
        d < 10,
    ensures
        r@ == seq![dec_digit(d as nat)],
{
    let r: &'static str = if d == 0 {
        "0"
    } else if d == 1 {
        "1"
    } else if d == 2 {
        "2"
    } else if d == 3 {
        "3"
    } else if d == 4 {
        "4"
    } else if d == 5 {
        "5"
    } else if d == 6 {
        "6"
    } else if d == 7 {
        "7"
    } else if d == 8 {
        "8"
    } else {
        "9"
    };
    proof {
        reveal_strlit("0");
        reveal_strlit("1");
        reveal_strlit("2");
        reveal_strlit("3");
        reveal_strlit("4");
        reveal_strlit("5");
        reveal_strlit("6");
        reveal_strlit("7");
        reveal_strlit("8");
        reveal_strlit("9");
        assert(r@ =~= seq![dec_digit(d as nat)]);
    }
    r
}

/// Append the decimal rendering of `n` to `out`.
fn push_decimal(out: &mut String, n: u32)
    ensures
        final(out)@ == old(out)@ + dec_rep(n as nat),
    decreases n,
{
    if n >= 10 {
        push_decimal(out, n / 10);
        out.append(digit_str(n % 10));
        proof {
            assert(old(out)@ + dec_rep((n / 10) as nat) + seq![dec_digit((n % 10) as nat)] =~= old(
                out,
            )@ + dec_rep(n as nat));
        }
    } else {
        out.append(digit_str(n));
        proof {
            assert(old(out)@ + seq![dec_digit(n as nat)] =~= old(out)@ + dec_rep(n as nat));
        }
    }
}

/// The common front of every produced header: prefixed name, `=`, value.
fn header_start(name: &str, value: &str) -> (r: String)
    ensures
        r@ == secure_prefix() + name@ + seq!['='] + value@,
{
    let mut r = "__Secure-".to_owned();
    r.append(name);
    r.append("=");
    r.append(value);
    proof {
        reveal_strlit("__Secure-");
        reveal_strlit("=");
        assert("__Secure-"@ =~= secure_prefix());
        assert("="@ =~= seq!['=']);
        assert(r@ =~= secure_prefix() + name@ + seq!['='] + value@);
    }
    r
}

/// Format the `Set-Cookie` value for a persistent cookie:
/// `__Secure-<name>=<value>; Max-Age=<max_age>; Path=/; SameSite=Lax; Secure; HttpOnly`.
///
/// A `max_age` of zero is valid and renders as `Max-Age=0`.
pub fn persistent(name: &str, value: &str, max_age: u32) -> (r: String)
    ensures
        r@ == spec_persistent(name@, value@, max_age as nat),
{
    let mut r = header_start(name, value);
    r.append("; Max-Age=");
    push_decimal(&mut r, max_age);
    r.append("; ");
    r.append("Path=/; SameSite=Lax; Secure; HttpOnly");
    proof {
        reveal_strlit("; Max-Age=");
        reveal_strlit("; ");
        reveal_strlit("Path=/; SameSite=Lax; Secure; HttpOnly");
        assert("; Max-Age="@ =~= max_age_label());
        assert("; "@ =~= pair_delim());
        assert("Path=/; SameSite=Lax; Secure; HttpOnly"@ =~= cookie_attributes());
        assert(r@ =~= spec_persistent(name@, value@, max_age as nat));
    }
    r
}

/// Format the `Set-Cookie` value that expires a cookie at once, equal to
/// `persistent(name, "expired", 0)`.
pub fn expired(name: &str) -> (r: String)
    ensures
        r@ == spec_expired(name@),
{
    let r = persistent(name, "expired", 0);
    proof {
        reveal_strlit("expired");
        assert("expired"@ =~= expired_value());
    }
    r
}

/// Format the `Set-Cookie` value for a session cookie, without an expiry:
/// `__Secure-<name>=<value>; Path=/; SameSite=Lax; Secure; HttpOnly`.
pub fn session(name: &str, value: &str) -> (r: String)
    ensures
        r@ == spec_session(name@, value@),
{
    let mut r = header_start(name, value);
    r.append("; ");
    r.append("Path=/; SameSite=Lax; Secure; HttpOnly");
    proof {
        reveal_strlit("; ");
        reveal_strlit("Path=/; SameSite=Lax; Secure; HttpOnly");
        assert("; "@ =~= pair_delim());
        assert("Path=/; SameSite=Lax; Secure; HttpOnly"@ =~= cookie_attributes());
        assert(r@ =~= spec_session(name@, value@));
    }
    r
}

} // verus!
