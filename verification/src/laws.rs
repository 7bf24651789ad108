//! Laws of the codec, stated over the model and proved for all inputs.

use vstd::prelude::*;

use crate::model::{
    delim_at, delim_free, is_ws, lemma_find_delim_is, lemma_find_delim_none, lemma_find_eq_is,
    lemma_apply_segments_cons, lemma_apply_segments_singleton, lemma_split_segments_unfold,
    lemma_trim_ws_id, lemma_trim_ws_id_chars, pair_delim,
    secure_prefix, segment_pair, apply_segment, apply_segments, spec_parse, spec_session,
    split_segments, strip_secure_prefix, trim_ws,
};

verus! {

/// A key as it may stand in a well-formed header: its own trim, without `=`,
/// without the pair delimiter, and without the secure-name prefix.
pub open spec fn plain_key(k: Seq<char>) -> bool {
    &&& trim_ws(k) == k
    &&& forall|i: int| 0 <= i < k.len() ==> k[i] != '='
    &&& delim_free(k)
    &&& !(k.len() >= 9 && k.subrange(0, 9) == secure_prefix())
}

/// The header text `k1=v1; k2=v2; ...; kn=vn`.
pub open spec fn join_pairs(keys: Seq<Seq<char>>, vals: Seq<Seq<char>>) -> Seq<char>
    decreases keys.len(),
{
    if keys.len() == 0 {
        Seq::empty()
    } else if keys.len() == 1 {
        keys[0] + seq!['='] + vals[0]
    } else {
        keys[0] + seq!['='] + vals[0] + pair_delim() + join_pairs(
            keys.drop_first(),
            vals.drop_first(),
        )
    }
}

/// Splitting a string that starts with a delimiter-free segment and the pair
/// delimiter cuts off exactly that segment.
proof fn lemma_split_prepend(seg: Seq<char>, rest: Seq<char>)
    requires
        delim_free(seg),
    ensures
        split_segments(seg + pair_delim() + rest) == seq![seg] + split_segments(rest),
{
    let s = seg + pair_delim() + rest;
    let sl = seg.len() as int;
    assert(s[sl] == ';');
    assert(s[sl + 1] == ' ');
    assert(delim_at(s, sl));
    assert forall|j: int| 0 <= j < sl implies !delim_at(s, j) by {
        if delim_at(s, j) {
            if j + 1 < sl {
                assert(s[j] == seg[j]);
                assert(s[j + 1] == seg[j + 1]);
                assert(delim_at(seg, j));
            } else {
                assert(s[j + 1] == ';');
            }
        }
    }
    lemma_find_delim_is(s, sl);
    lemma_split_segments_unfold(s);
    assert(s.take(sl) =~= seg);
    assert(s.skip(sl + 2) =~= rest);
}

/// A segment built from a delimiter-free key and value is delimiter-free.
proof fn lemma_segment_delim_free(key: Seq<char>, val: Seq<char>)
    requires
        delim_free(key),
        delim_free(val),
    ensures
        delim_free(key + seq!['='] + val),
{
    let s = key + seq!['='] + val;
    let kl = key.len() as int;
    assert forall|j: int| !delim_at(s, j) by {
        if delim_at(s, j) {
            if j + 1 < kl {
                assert(s[j] == key[j]);
                assert(s[j + 1] == key[j + 1]);
                assert(delim_at(key, j));
            } else if j + 1 == kl {
                assert(s[j + 1] == key[j + 1]);
            } else if j == kl {
                assert(s[j] == '=');
            } else {
                assert(s[j] == val[j - kl - 1]);
                if j + 1 < s.len() {
                    if j + 1 - kl - 1 < val.len() {
                        assert(s[j + 1] == val[j - kl]);
                        assert(delim_at(val, j - kl - 1));
                    }
                }
            }
        }
    }
}

/// A segment built from a plain key decodes to that key and the trimmed
/// value.
proof fn lemma_segment_pair_plain(key: Seq<char>, val: Seq<char>)
    requires
        plain_key(key),
    ensures
        segment_pair(key + seq!['='] + val) == Some((key, trim_ws(val))),
{
    let s = key + seq!['='] + val;
    let kl = key.len() as int;
    assert(s[kl] == '=');
    assert(forall|i: int| 0 <= i < kl ==> s[i] == key[i] && s[i] != '=');
    lemma_find_eq_is(s, kl);
    assert(s.take(kl) =~= key);
    assert(s.skip(kl + 1) =~= val);
    assert(strip_secure_prefix(key) == key);
}

/// How decoding the joined header extends a partially built map: every plain
/// key is added with its trimmed value, and other entries stay.
proof fn lemma_parse_join_rec(
    m0: Map<Seq<char>, Seq<char>>,
    keys: Seq<Seq<char>>,
    vals: Seq<Seq<char>>,
)
    requires
        keys.len() == vals.len(),
        forall|i: int| 0 <= i < keys.len() ==> plain_key(#[trigger] keys[i]),
        forall|i: int| 0 <= i < vals.len() ==> delim_free(#[trigger] vals[i]),
        forall|a: int, b: int| 0 <= a < b < keys.len() ==> keys[a] != keys[b],
    ensures
        forall|k: Seq<char>|
            #![trigger apply_segments(m0, split_segments(join_pairs(keys, vals))).dom().contains(k)]
            apply_segments(m0, split_segments(join_pairs(keys, vals))).dom().contains(k) <==> (
            m0.dom().contains(k) || keys.contains(k)),
        forall|k: Seq<char>|
            #![trigger apply_segments(m0, split_segments(join_pairs(keys, vals)))[k]]
            m0.dom().contains(k) && !keys.contains(k) ==> apply_segments(
                m0,
                split_segments(join_pairs(keys, vals)),
            )[k] == m0[k],
        forall|i: int|
            #![trigger keys[i]]
            0 <= i < keys.len() ==> apply_segments(m0, split_segments(join_pairs(keys, vals)))[
                keys[i]] == trim_ws(vals[i]),
    decreases keys.len(),
{
    let s = join_pairs(keys, vals);
    let res = apply_segments(m0, split_segments(s));
    if keys.len() == 0 {
        lemma_find_delim_none(s);
        lemma_split_segments_unfold(s);
        assert(split_segments(s) == seq![s]);
        assert(segment_pair(s) is None);
        lemma_apply_segments_singleton(m0, s);
        assert(res == m0);
        assert(forall|k: Seq<char>| !keys.contains(k));
    } else {
        let k0 = keys[0];
        let v0 = vals[0];
        let seg0 = k0 + seq!['='] + v0;
        lemma_segment_delim_free(k0, v0);
        lemma_segment_pair_plain(k0, v0);
        let m1 = m0.insert(k0, trim_ws(v0));
        assert(keys.contains(k0));
        if keys.len() == 1 {
            lemma_find_delim_none(s);
            lemma_split_segments_unfold(s);
            assert(split_segments(s) == seq![seg0]);
            lemma_apply_segments_singleton(m0, seg0);
            assert(res == m1);
            assert forall|k: Seq<char>| keys.contains(k) implies k == k0 by {
                let i = choose|i: int| 0 <= i < keys.len() && keys[i] == k;
                assert(i == 0);
            }
            assert forall|k: Seq<char>|
                #![trigger res.dom().contains(k)]
                res.dom().contains(k) <==> (m0.dom().contains(k) || keys.contains(k)) by {
                assert(m1.dom().contains(k) <==> (m0.dom().contains(k) || k == k0));
            }
        } else {
            let tk = keys.drop_first();
            let tv = vals.drop_first();
            let jr = join_pairs(tk, tv);
            assert(s == seg0 + pair_delim() + jr);
            lemma_split_prepend(seg0, jr);
            let segs = split_segments(s);
            assert(segs == seq![seg0] + split_segments(jr));
            assert(segs[0] == seg0);
            assert(segs.drop_first() =~= split_segments(jr));
            assert(apply_segment(m0, seg0) == m1);
            lemma_apply_segments_cons(m0, segs);
            let mr = apply_segments(m1, split_segments(jr));
            assert(res == mr);
            assert(forall|i: int| 0 <= i < tk.len() ==> #[trigger] tk[i] == keys[i + 1]);
            assert(forall|i: int| 0 <= i < tv.len() ==> #[trigger] tv[i] == vals[i + 1]);
            lemma_parse_join_rec(m1, tk, tv);
            assert forall|k: Seq<char>| keys.contains(k) implies (k == k0 || tk.contains(k)) by {
                let i = choose|i: int| 0 <= i < keys.len() && keys[i] == k;
                if i > 0 {
                    assert(tk[i - 1] == k);
                }
            }
            assert forall|k: Seq<char>| tk.contains(k) implies keys.contains(k) by {
                let i = choose|i: int| 0 <= i < tk.len() && tk[i] == k;
                assert(keys[i + 1] == k);
            }
            assert(!tk.contains(k0)) by {
                if tk.contains(k0) {
                    let i = choose|i: int| 0 <= i < tk.len() && tk[i] == k0;
                    assert(keys[i + 1] == keys[0]);
                }
            }
            assert forall|k: Seq<char>|
                #![trigger res.dom().contains(k)]
                res.dom().contains(k) <==> (m0.dom().contains(k) || keys.contains(k)) by {
                assert(mr.dom().contains(k) <==> (m1.dom().contains(k) || tk.contains(k)));
                assert(m1.dom().contains(k) <==> (m0.dom().contains(k) || k == k0));
            }
            assert forall|k: Seq<char>|
                #![trigger res[k]]
                m0.dom().contains(k) && !keys.contains(k) implies res[k] == m0[k] by {
                assert(!tk.contains(k));
                assert(m1.dom().contains(k));
                assert(mr[k] == m1[k]);
                assert(m1[k] == m0[k]);
            }
            assert forall|i: int| 0 <= i < keys.len() implies res[#[trigger] keys[i]] == trim_ws(
                vals[i],
            ) by {
                if i == 0 {
                    assert(m1.dom().contains(k0));
                    assert(mr[k0] == m1[k0]);
                } else {
                    assert(tk[i - 1] == keys[i]);
                    assert(tv[i - 1] == vals[i]);
                    assert(mr[tk[i - 1]] == trim_ws(tv[i - 1]));
                }
            }
        }
    }
}

/// Law: a well-formed header of distinct plain pairs decodes to a mapping
/// holding exactly those pairs, each value trimmed of its surrounding white
/// space.
pub proof fn lemma_parse_well_formed(keys: Seq<Seq<char>>, vals: Seq<Seq<char>>)
    requires
        keys.len() == vals.len(),
        forall|i: int| 0 <= i < keys.len() ==> plain_key(#[trigger] keys[i]),
        forall|i: int| 0 <= i < vals.len() ==> delim_free(#[trigger] vals[i]),
        forall|a: int, b: int| 0 <= a < b < keys.len() ==> keys[a] != keys[b],
    ensures
        forall|k: Seq<char>|
            #![trigger spec_parse(join_pairs(keys, vals)).dom().contains(k)]
            spec_parse(join_pairs(keys, vals)).dom().contains(k) <==> keys.contains(k),
        forall|i: int|
            #![trigger keys[i]]
            0 <= i < keys.len() ==> spec_parse(join_pairs(keys, vals))[keys[i]] == trim_ws(
                vals[i],
            ),
{
    let e = Map::<Seq<char>, Seq<char>>::empty();
    lemma_parse_join_rec(e, keys, vals);
    let res = apply_segments(e, split_segments(join_pairs(keys, vals)));
    assert(spec_parse(join_pairs(keys, vals)) == res);
    assert forall|k: Seq<char>|
        #![trigger spec_parse(join_pairs(keys, vals)).dom().contains(k)]
        spec_parse(join_pairs(keys, vals)).dom().contains(k) <==> keys.contains(k) by {
        assert(res.dom().contains(k) <==> (e.dom().contains(k) || keys.contains(k)));
        assert(!e.dom().contains(k));
    }
}

/// Law: the `name=value` front of an encoded session cookie decodes back to
/// the name and the value, for a name without the secure-name prefix that is
/// its own trim and holds neither `=` nor the pair delimiter, and a value
/// that is its own trim and holds neither `;` nor `=`.
pub proof fn lemma_session_round_trip(name: Seq<char>, value: Seq<char>)
    requires
        trim_ws(name) == name,
        trim_ws(value) == value,
        forall|i: int| 0 <= i < name.len() ==> name[i] != '=',
        delim_free(name),
        !(name.len() >= 9 && name.subrange(0, 9) == secure_prefix()),
        forall|i: int| 0 <= i < value.len() ==> value[i] != ';' && value[i] != '=',
    ensures
        spec_session(name, value).take(9 + name.len() as int + 1 + value.len() as int) == secure_prefix() + name
            + seq!['='] + value,
        spec_parse(secure_prefix() + name + seq!['='] + value) == Map::<
            Seq<char>,
            Seq<char>,
        >::empty().insert(name, value),
{
    let seg = secure_prefix() + name + seq!['='] + value;
    let nl = name.len() as int;
    assert(spec_session(name, value).take(9 + nl + 1 + value.len() as int) =~= seg);
    assert(seg[9 + nl] == '=');
    assert forall|i: int| 0 <= i < 9 + nl implies seg[i] != '=' by {
        if i < 9 {
            assert(seg[i] == secure_prefix()[i]);
        } else {
            assert(seg[i] == name[i - 9]);
        }
    }
    lemma_find_eq_is(seg, 9 + nl);
    assert forall|j: int| !delim_at(seg, j) by {
        if delim_at(seg, j) {
            if j < 9 {
                assert(seg[j] == secure_prefix()[j]);
            } else if j < 9 + nl {
                assert(seg[j] == name[j - 9]);
                if j + 1 < 9 + nl {
                    assert(seg[j + 1] == name[j - 8]);
                    assert(delim_at(name, j - 9));
                } else {
                    assert(seg[j + 1] == '=');
                }
            } else if j == 9 + nl {
                assert(seg[j] == '=');
            } else {
                assert(seg[j] == value[j - 9 - nl - 1]);
            }
        }
    }
    lemma_find_delim_none(seg);
    lemma_split_segments_unfold(seg);
    assert(split_segments(seg) == seq![seg]);
    let key_raw = secure_prefix() + name;
    assert(seg.take(9 + nl) =~= key_raw);
    assert(seg.skip(9 + nl + 1) =~= value);
    assert(key_raw[0] == '_');
    assert(!is_ws('_'));
    if name.len() > 0 {
        lemma_trim_ws_id_chars(name);
        assert(key_raw.last() == name.last());
    } else {
        assert(key_raw.last() == '-');
        assert(!is_ws('-'));
    }
    lemma_trim_ws_id(key_raw);
    assert(key_raw.subrange(0, 9) =~= secure_prefix());
    assert(key_raw.skip(9) =~= name);
    assert(segment_pair(seg) == Some((name, value)));
    lemma_apply_segments_singleton(Map::<Seq<char>, Seq<char>>::empty(), seg);
    assert(apply_segments(Map::<Seq<char>, Seq<char>>::empty(), split_segments(seg))
        == Map::<Seq<char>, Seq<char>>::empty().insert(name, value));
}

} // verus!
