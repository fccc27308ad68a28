//! The canonical snapshot encoding.
//!
//! A `FilesMap` is written as a length-prefixed text: a count, a colon, and
//! then per entry the path and the item, every string written as its
//! character count, a colon, and the characters. Counts are canonical
//! decimal numerals, so two structurally identical snapshots encode to
//! identical text, and the decoder accepts exactly the encodings of
//! well-formed snapshots.

use vstd::prelude::*;

use crate::errors::SafeError;
use crate::files_map::{
    build_model, created_key, file_type_of, lemma_build_model_attributes, link_key, modified_key,
    pair_lookup, pairs_sorted, paths_sorted, size_key, type_key, FileItem, FilesMap, MapModel,
    PairsModel,
};
use crate::text::{
    chars_lt, chars_string, dec_digits, dec_val_of, dec_value, is_dec_digit,
    lemma_dec_digits_are_digits, lemma_dec_digits_leading, lemma_dec_digits_value,
    lemma_dec_value_prefix_le, lemma_lex_lt_transitive, lemma_numeral_field_unambiguous, lex_lt,
    str_chars, u64_to_chars,
};

verus! {

/// One string field: its character count, a colon, and its characters.
pub open spec fn enc_str(s: Seq<char>) -> Seq<char> {
    dec_digits(s.len()) + seq![':'] + s
}

/// The fields of an attribute mapping, key and value alternating.
pub open spec fn enc_pairs(m: PairsModel) -> Seq<char>
    decreases m.len(),
{
    if m.len() == 0 {
        Seq::empty()
    } else {
        enc_str(m[0].0) + enc_str(m[0].1) + enc_pairs(m.skip(1))
    }
}

/// One item: its attribute count, a colon, and its fields.
pub open spec fn enc_item(m: PairsModel) -> Seq<char> {
    dec_digits(m.len()) + seq![':'] + enc_pairs(m)
}

/// The entries of a snapshot, path and item alternating.
pub open spec fn enc_entries(m: MapModel) -> Seq<char>
    decreases m.len(),
{
    if m.len() == 0 {
        Seq::empty()
    } else {
        enc_str(m[0].0) + enc_item(m[0].1) + enc_entries(m.skip(1))
    }
}

/// A whole snapshot: its entry count, a colon, and its entries.
pub open spec fn enc_map(m: MapModel) -> Seq<char> {
    dec_digits(m.len()) + seq![':'] + enc_entries(m)
}

/// A well-formed snapshot model: paths strictly sorted, and each item's
/// attribute names strictly sorted.
pub open spec fn wf_model(m: MapModel) -> bool {
    paths_sorted(m) && (forall|i: int| 0 <= i < m.len() ==> pairs_sorted(#[trigger] m[i].1))
}

/// Encoding distributes over concatenation of attribute pairs.
pub proof fn lemma_enc_pairs_concat(a: PairsModel, b: PairsModel)
    ensures
        enc_pairs(a + b) == enc_pairs(a) + enc_pairs(b),
    decreases a.len(),
{
    if a.len() == 0 {
        assert(a + b =~= b);
        assert(enc_pairs(a) + enc_pairs(b) =~= enc_pairs(b));
    } else {
        lemma_enc_pairs_concat(a.skip(1), b);
        assert((a + b).skip(1) =~= a.skip(1) + b);
        assert((a + b)[0] == a[0]);
        assert(enc_str(a[0].0) + enc_str(a[0].1) + (enc_pairs(a.skip(1)) + enc_pairs(b)) =~= (
        enc_str(a[0].0) + enc_str(a[0].1) + enc_pairs(a.skip(1))) + enc_pairs(b));
    }
}

/// Encoding distributes over concatenation of snapshot entries.
pub proof fn lemma_enc_entries_concat(a: MapModel, b: MapModel)
    ensures
        enc_entries(a + b) == enc_entries(a) + enc_entries(b),
    decreases a.len(),
{
    if a.len() == 0 {
        assert(a + b =~= b);
        assert(enc_entries(a) + enc_entries(b) =~= enc_entries(b));
    } else {
        lemma_enc_entries_concat(a.skip(1), b);
        assert((a + b).skip(1) =~= a.skip(1) + b);
        assert((a + b)[0] == a[0]);
        assert(enc_str(a[0].0) + enc_item(a[0].1) + (enc_entries(a.skip(1)) + enc_entries(b)) =~= (
        enc_str(a[0].0) + enc_item(a[0].1) + enc_entries(a.skip(1))) + enc_entries(b));
    }
}

/// A digit sequence without a leading zero is the canonical numeral of its
/// value.
pub proof fn lemma_canonical_digits(s: Seq<char>)
    requires
        s.len() >= 1,
        forall|t: int| 0 <= t < s.len() ==> is_dec_digit(#[trigger] s[t]),
        s[0] == '0' ==> s.len() == 1,
    ensures
        dec_digits(dec_value(s)) == s,
    decreases s.len(),
{
    if s.len() == 1 {
        assert(s.drop_last() =~= Seq::<char>::empty());
        assert(s.last() == s[0]);
        assert(dec_value(Seq::<char>::empty()) == 0);
        assert(dec_value(s) == crate::text::dec_val_u(s[0]));
        assert(crate::text::dec_val_u(s[0]) < 10);
        assert(crate::text::dec_char_of(crate::text::dec_val_u(s[0])) == s[0]);
        assert(dec_digits(dec_value(s)) =~= s);
    } else {
        let p = s.drop_last();
        assert(forall|t: int| 0 <= t < p.len() ==> p[t] == s[t]);
        lemma_canonical_digits(p);
        let vp = dec_value(p);
        let d = dec_val_of(s.last()).unwrap();
        assert(dec_value(s) == vp * 10 + d);
        if vp == 0 {
            lemma_dec_value_zero(p);
            assert(p[0] == '0');
            assert(false);
        }
        assert(vp * 10 + d >= 10);
        assert((vp * 10 + d) / 10 == vp);
        assert((vp * 10 + d) % 10 == d);
        assert(dec_digits(dec_value(s)) == dec_digits(vp) + seq![crate::text::dec_char_of(d)]);
        assert(crate::text::dec_char_of(d) == s.last());
        assert(dec_digits(vp) + seq![s.last()] =~= s);
    }
}

/// A digit sequence standing for zero is all zero digits.
proof fn lemma_dec_value_zero(s: Seq<char>)
    requires
        forall|t: int| 0 <= t < s.len() ==> is_dec_digit(#[trigger] s[t]),
        dec_value(s) == 0,
    ensures
        forall|t: int| 0 <= t < s.len() ==> s[t] == '0',
    decreases s.len(),
{
    if s.len() > 0 {
        let p = s.drop_last();
        assert(dec_value(s) == dec_value(p) * 10 + crate::text::dec_val_u(s.last()));
        assert(dec_value(p) == 0 && crate::text::dec_val_u(s.last()) == 0);
        assert(s.last() == '0');
        lemma_dec_value_zero(p);
        assert(forall|t: int| 0 <= t < s.len() - 1 ==> s[t] == p[t]);
    }
}

/// Where a count field (a numeral, then a colon) stands at `i` in `v`, its
/// digits, its colon, and its prefixes stand at fixed places.
proof fn lemma_count_field_at(v: Seq<char>, i: int, n: nat, rest: Seq<char>)
    requires
        0 <= i <= v.len(),
        v.skip(i) == dec_digits(n) + seq![':'] + rest,
    ensures
        i + dec_digits(n).len() < v.len(),
        forall|t: int|
            0 <= t < dec_digits(n).len() ==> is_dec_digit(#[trigger] v[i + t]) && v[i + t]
                == dec_digits(n)[t],
        v[i + dec_digits(n).len()] == ':',
        forall|t: int|
            0 <= t <= dec_digits(n).len() ==> v.subrange(i, i + t) == dec_digits(n).take(t),
        rest == v.skip(i + dec_digits(n).len() + 1),
    decreases 0int,
{
    lemma_dec_digits_are_digits(n);
    let w = dec_digits(n) + seq![':'] + rest;
    let ln = dec_digits(n).len() as int;
    assert(v.skip(i).len() == ln + 1 + rest.len());
    assert forall|t: int|
        0 <= t < ln implies is_dec_digit(#[trigger] v[i + t]) && v[i + t] == dec_digits(n)[t] by {
        assert(v[i + t] == v.skip(i)[t]);
        assert(w[t] == dec_digits(n)[t]);
    }
    assert(v[i + ln] == v.skip(i)[ln]);
    assert(w[ln] == ':');
    assert forall|t: int| 0 <= t <= ln implies v.subrange(i, i + t) == dec_digits(n).take(t) by {
        assert forall|u: int| 0 <= u < t implies v.subrange(i, i + t)[u] == dec_digits(n).take(
            t,
        )[u] by {
            assert(v[i + u] == v.skip(i)[u]);
            assert(w[u] == dec_digits(n)[u]);
        }
        assert(v.subrange(i, i + t) =~= dec_digits(n).take(t));
    }
    assert forall|u: int| 0 <= u < rest.len() implies v.skip(i + ln + 1)[u] == rest[u] by {
        assert(v.skip(i + ln + 1)[u] == v.skip(i)[ln + 1 + u]);
        assert(w[ln + 1 + u] == rest[u]);
    }
    assert(rest =~= v.skip(i + ln + 1));
}

/// The value of one decimal digit character.
fn dec_digit_val(c: char) -> (r: Option<u8>)
    ensures
        match r {
            Some(d) => dec_val_of(c) == Some(d as nat),
            None => dec_val_of(c) is None,
        },
{
    match c {
        '0' => Some(0u8),
        '1' => Some(1u8),
        '2' => Some(2u8),
        '3' => Some(3u8),
        '4' => Some(4u8),
        '5' => Some(5u8),
        '6' => Some(6u8),
        '7' => Some(7u8),
        '8' => Some(8u8),
        '9' => Some(9u8),
        _ => None,
    }
}

/// Reads one count field at `i`: a canonical numeral followed by a colon.
/// Returns the count and the position after the colon, or `None` where no
/// count field stands at `i`.
fn parse_len(v: &Vec<char>, i: usize) -> (r: Option<(usize, usize)>)
    requires
        i <= v@.len(),
    ensures
        match r {
            Some((n, j)) => i < j <= v@.len() && v@.subrange(i as int, j as int) == dec_digits(
                n as nat,
            ) + seq![':'],
            None => forall|n: nat, rest: Seq<char>|
                n <= usize::MAX ==> v@.skip(i as int) != dec_digits(n) + seq![':'] + rest,
        },
{
    let mut j: usize = i;
    let mut acc: usize = 0;
    loop
        invariant
            i <= j <= v@.len(),
            acc == dec_value(v@.subrange(i as int, j as int)),
            forall|t: int| i <= t < j ==> is_dec_digit(#[trigger] v@[t]),
        ensures
            i <= j <= v@.len(),
            acc == dec_value(v@.subrange(i as int, j as int)),
            forall|t: int| i <= t < j ==> is_dec_digit(#[trigger] v@[t]),
            j < v@.len() ==> !is_dec_digit(v@[j as int]),
        decreases v@.len() - j,
    {
        proof {
            assert(v@.subrange(i as int, i as int) =~= Seq::<char>::empty());
        }
        if j >= v.len() {
            break;
        }
        let d = match dec_digit_val(v[j]) {
            Some(d) => d,
            None => {
                break;
            },
        };
        if acc > usize::MAX / 10 || (acc == usize::MAX / 10 && d as usize > usize::MAX % 10) {
            // The digit run read so far already stands for more than any
            // count this machine could hold.
            proof {
                assert forall|n: nat, rest: Seq<char>|
                    n <= usize::MAX implies v@.skip(i as int) != dec_digits(n) + seq![':']
                    + rest by {
                    if v@.skip(i as int) == dec_digits(n) + seq![':'] + rest {
                        lemma_count_field_at(v@, i as int, n, rest);
                        let ln = dec_digits(n).len() as int;
                        assert(is_dec_digit(v@[j as int]));
                        assert(j + 1 <= i + ln) by {
                            if i + ln < j {
                                assert(is_dec_digit(v@[i + ln]));
                            }
                            if i + ln == j {
                                assert(v@[i + ln] == ':');
                            }
                        }
                        assert(v@.subrange(i as int, i + (j + 1 - i)) == dec_digits(n).take(
                            j + 1 - i,
                        ));
                        assert(v@.subrange(i as int, j + 1) == dec_digits(n).take(j + 1 - i));
                        lemma_dec_value_prefix_le(dec_digits(n), j + 1 - i);
                        lemma_dec_digits_value(n);
                        assert(v@.subrange(i as int, j + 1).drop_last() =~= v@.subrange(
                            i as int,
                            j as int,
                        ));
                        assert(dec_value(v@.subrange(i as int, j + 1)) == acc * 10 + (
                        d as nat));
                        assert(acc * 10 + d > usize::MAX);
                    }
                }
            }
            return None;
        }
        proof {
            assert(v@.subrange(i as int, j + 1).drop_last() =~= v@.subrange(i as int, j as int));
            assert(dec_value(v@.subrange(i as int, j + 1)) == acc * 10 + (d as nat));
        }
        acc = acc * 10 + d as usize;
        j += 1;
    }
    if j == i {
        // No digit at all stands at `i`.
        proof {
            assert forall|n: nat, rest: Seq<char>|
                n <= usize::MAX implies v@.skip(i as int) != dec_digits(n) + seq![':'] + rest by {
                if v@.skip(i as int) == dec_digits(n) + seq![':'] + rest {
                    lemma_count_field_at(v@, i as int, n, rest);
                    lemma_dec_digits_are_digits(n);
                    assert(is_dec_digit(v@[i + 0]));
                    assert(is_dec_digit(v@[i as int]));
                }
            }
        }
        return None;
    }
    if j >= v.len() || v[j] != ':' {
        // The digit run does not end in a colon.
        proof {
            assert forall|n: nat, rest: Seq<char>|
                n <= usize::MAX implies v@.skip(i as int) != dec_digits(n) + seq![':'] + rest by {
                if v@.skip(i as int) == dec_digits(n) + seq![':'] + rest {
                    lemma_count_field_at(v@, i as int, n, rest);
                    let ln = dec_digits(n).len() as int;
                    assert(i + ln >= j) by {
                        if i + ln < j {
                            assert(is_dec_digit(v@[i + ln]));
                            assert(v@[i + ln] == ':');
                        }
                    }
                    assert(i + ln <= j) by {
                        if i + ln > j {
                            assert(v@[i + (j - i)] == v@[j as int]);
                            assert(is_dec_digit(v@[i + (j - i)]));
                            assert(is_dec_digit(v@[j as int]));
                        }
                    }
                    assert(v@[j as int] == ':');
                }
            }
        }
        return None;
    }
    if v[i] == '0' && j > i + 1 {
        // A multi-digit run with a leading zero is not canonical.
        proof {
            assert forall|n: nat, rest: Seq<char>|
                n <= usize::MAX implies v@.skip(i as int) != dec_digits(n) + seq![':'] + rest by {
                if v@.skip(i as int) == dec_digits(n) + seq![':'] + rest {
                    lemma_count_field_at(v@, i as int, n, rest);
                    let ln = dec_digits(n).len() as int;
                    assert(i + ln == j) by {
                        if i + ln < j {
                            assert(is_dec_digit(v@[i + ln]));
                            assert(v@[i + ln] == ':');
                        }
                        if i + ln > j {
                            assert(v@[i + (j - i)] == v@[j as int]);
                            assert(is_dec_digit(v@[i + (j - i)]));
                        }
                    }
                    lemma_dec_digits_leading(n);
                    assert(v@[i + 0] == dec_digits(n)[0]);
                    assert(v@[i as int] == dec_digits(n)[0]);
                    assert(n == 0);
                    assert(ln == 1);
                }
            }
        }
        return None;
    }
    proof {
        let run = v@.subrange(i as int, j as int);
        assert forall|t: int| 0 <= t < run.len() implies is_dec_digit(#[trigger] run[t]) by {
            assert(run[t] == v@[i + t]);
        }
        assert(run[0] == v@[i as int]);
        lemma_canonical_digits(run);
        assert(v@.subrange(i as int, j + 1) =~= run + seq![':']);
    }
    Some((acc, j + 1))
}

/// Writes one string field after the given characters.
fn push_str_field(out: &mut Vec<char>, s: &String)
    ensures
        final(out)@ == old(out)@ + enc_str(s@),
{
    let cs = str_chars(s.as_str());
    let mut d = u64_to_chars(cs.len() as u64);
    out.append(&mut d);
    out.push(':');
    let mut body = cs;
    out.append(&mut body);
    proof {
        assert(out@ =~= old(out)@ + enc_str(s@));
    }
}

/// Equal sequences with a common prefix have equal remainders.
proof fn lemma_concat_cancel(x: Seq<char>, a: Seq<char>, b: Seq<char>)
    requires
        x + a == x + b,
    ensures
        a == b,
{
    assert((x + a).len() == x.len() + a.len());
    assert((x + b).len() == x.len() + b.len());
    assert(a.len() == b.len());
    assert forall|i: int| 0 <= i < a.len() implies a[i] == b[i] by {
        assert((x + a)[x.len() + i] == a[i]);
        assert((x + b)[x.len() + i] == b[i]);
    }
    assert(a =~= b);
}

/// A string field is unambiguous: a field and a remainder determine each
/// other.
pub proof fn lemma_enc_str_unambiguous(s1: Seq<char>, s2: Seq<char>, r1: Seq<char>, r2: Seq<char>)
    requires
        enc_str(s1) + r1 == enc_str(s2) + r2,
    ensures
        s1 == s2,
        r1 == r2,
{
    assert(enc_str(s1) + r1 =~= dec_digits(s1.len()) + seq![':'] + (s1 + r1));
    assert(enc_str(s2) + r2 =~= dec_digits(s2.len()) + seq![':'] + (s2 + r2));
    lemma_numeral_field_unambiguous(s1.len(), s2.len(), s1 + r1, s2 + r2);
    assert(s1.len() == s2.len());
    assert forall|i: int| 0 <= i < s1.len() implies s1[i] == s2[i] by {
        assert((s1 + r1)[i] == s1[i]);
        assert((s2 + r2)[i] == s2[i]);
    }
    assert(s1 =~= s2);
    lemma_concat_cancel(s1, r1, r2);
}

/// The fields of an item take at least one character each.
proof fn lemma_enc_pairs_len(m: PairsModel)
    ensures
        enc_pairs(m).len() >= m.len(),
    decreases m.len(),
{
    if m.len() > 0 {
        lemma_enc_pairs_len(m.skip(1));
        crate::text::lemma_dec_digits_are_digits(m[0].0.len());
    }
}

/// The entries of a snapshot take at least one character each.
proof fn lemma_enc_entries_len(m: MapModel)
    ensures
        enc_entries(m).len() >= m.len(),
    decreases m.len(),
{
    if m.len() > 0 {
        lemma_enc_entries_len(m.skip(1));
        crate::text::lemma_dec_digits_are_digits(m[0].0.len());
    }
}

/// What remains after the consumed prefix of a snapshot encoding is the
/// encoding of the remaining entries.
proof fn lemma_remainder_at_entry(v: Seq<char>, pos: int, n: nat, mm: MapModel, k: int)
    requires
        0 <= pos <= v.len(),
        v == enc_map(mm),
        mm.len() == n,
        0 <= k <= mm.len(),
        v.subrange(0, pos) == dec_digits(n) + seq![':'] + enc_entries(mm.take(k)),
    ensures
        v.skip(pos) == enc_entries(mm.skip(k)),
{
    assert(mm.take(k) + mm.skip(k) =~= mm);
    lemma_enc_entries_concat(mm.take(k), mm.skip(k));
    assert(v =~= v.subrange(0, pos) + v.skip(pos));
    assert(enc_map(mm) =~= (dec_digits(n) + seq![':'] + enc_entries(mm.take(k))) + enc_entries(
        mm.skip(k),
    ));
    lemma_concat_cancel(v.subrange(0, pos), v.skip(pos), enc_entries(mm.skip(k)));
}

/// The first remaining entry stands at the head of the remaining encoding.
proof fn lemma_entry_head(mm: MapModel, k: int)
    requires
        0 <= k < mm.len(),
    ensures
        enc_entries(mm.skip(k)) == enc_str(mm[k].0) + enc_item(mm[k].1) + enc_entries(
            mm.skip(k + 1),
        ),
{
    let t = mm.skip(k);
    assert(t[0] == mm[k]);
    assert(t.skip(1) =~= mm.skip(k + 1));
}

/// The first remaining attribute stands at the head of the remaining fields.
proof fn lemma_pair_head(im: PairsModel, a: int)
    requires
        0 <= a < im.len(),
    ensures
        enc_pairs(im.skip(a)) == enc_str(im[a].0) + enc_str(im[a].1) + enc_pairs(im.skip(a + 1)),
{
    let t = im.skip(a);
    assert(t[0] == im[a]);
    assert(t.skip(1) =~= im.skip(a + 1));
}

/// What remains of an item's fields after its consumed prefix.
proof fn lemma_remainder_at_pair(w: Seq<char>, pos: int, im: PairsModel, a: int, tail: Seq<char>)
    requires
        0 <= pos <= w.len(),
        w == enc_pairs(im) + tail,
        0 <= a <= im.len(),
        w.subrange(0, pos) == enc_pairs(im.take(a)),
    ensures
        w.skip(pos) == enc_pairs(im.skip(a)) + tail,
{
    assert(im.take(a) + im.skip(a) =~= im);
    lemma_enc_pairs_concat(im.take(a), im.skip(a));
    assert(w =~= w.subrange(0, pos) + w.skip(pos));
    assert(enc_pairs(im) + tail =~= enc_pairs(im.take(a)) + (enc_pairs(im.skip(a)) + tail));
    lemma_concat_cancel(w.subrange(0, pos), w.skip(pos), enc_pairs(im.skip(a)) + tail);
}

/// Reads one string field at `i`: a count field and that many characters.
fn parse_str_field(v: &Vec<char>, i: usize) -> (r: Option<(String, usize)>)
    requires
        i <= v@.len(),
    ensures
        match r {
            Some(p) => i < p.1 <= v@.len() && v@.subrange(i as int, p.1 as int) == enc_str(p.0@),
            None => forall|sv: Seq<char>, rest: Seq<char>|
                v@.skip(i as int) != enc_str(sv) + rest,
        },
{
    let vl = v.len();
    let (n, j) = match parse_len(v, i) {
        Some(p) => p,
        None => {
            proof {
                assert forall|sv: Seq<char>, rest: Seq<char>|
                    v@.skip(i as int) != enc_str(sv) + rest by {
                    if v@.skip(i as int) == enc_str(sv) + rest {
                        assert(enc_str(sv) + rest =~= dec_digits(sv.len()) + seq![':'] + (sv
                            + rest));
                        assert(v@.skip(i as int).len() <= v@.len());
                        assert(sv.len() <= usize::MAX);
                    }
                }
            }
            return None;
        },
    };
    if vl - j < n {
        proof {
            assert forall|sv: Seq<char>, rest: Seq<char>|
                v@.skip(i as int) != enc_str(sv) + rest by {
                if v@.skip(i as int) == enc_str(sv) + rest {
                    assert(v@ =~= v@.subrange(0, i as int) + v@.subrange(i as int, j as int)
                        + v@.skip(j as int));
                    assert(v@.skip(i as int) =~= v@.subrange(i as int, j as int) + v@.skip(
                        j as int,
                    ));
                    assert(v@.skip(i as int) =~= dec_digits(n as nat) + seq![':'] + v@.skip(
                        j as int,
                    ));
                    assert(enc_str(sv) + rest =~= dec_digits(sv.len()) + seq![':'] + (sv + rest));
                    lemma_numeral_field_unambiguous(n as nat, sv.len(), v@.skip(j as int), sv
                        + rest);
                    assert(v@.skip(j as int).len() >= sv.len());
                }
            }
        }
        return None;
    }
    let mut body: Vec<char> = Vec::new();
    let mut t: usize = 0;
    while t < n
        invariant
            j + n <= v@.len(),
            v@.len() <= usize::MAX,
            t <= n,
            body@ == v@.subrange(j as int, j + t),
        decreases n - t,
    {
        body.push(v[j + t]);
        proof {
            assert(body@ =~= v@.subrange(j as int, j + t + 1));
        }
        t += 1;
    }
    let s = chars_string(&body);
    proof {
        assert(v@.subrange(i as int, (j + n) as int) =~= v@.subrange(i as int, j as int)
            + v@.subrange(j as int, j + n));
        assert(s@.len() == n);
        assert(v@.subrange(i as int, (j + n) as int) =~= enc_str(s@));
    }
    Some((s, j + n))
}

/// The head attribute of the remaining fields, in callers' shape.
proof fn lemma_attr_head_form(
    v: Seq<char>,
    n: nat,
    mm: MapModel,
    k: int,
    a: int,
    pos: int,
    pos2: int,
    posa: int,
    an: nat,
    im0: PairsModel,
    path: Seq<char>,
)
    requires
        v == enc_map(mm),
        mm.len() == n,
        0 <= k < mm.len(),
        0 <= pos <= pos2 <= posa <= v.len(),
        v.subrange(0, pos) == dec_digits(n) + seq![':'] + enc_entries(mm.take(k)),
        v.subrange(pos, pos2) == enc_str(path),
        v.subrange(pos2, posa) == dec_digits(an) + seq![':'] + enc_pairs(im0),
        path == mm[k].0,
        an == mm[k].1.len(),
        0 <= a < mm[k].1.len(),
        im0 == mm[k].1.take(a),
    ensures
        v.skip(posa) == enc_str(mm[k].1[a].0) + (enc_str(mm[k].1[a].1) + (enc_pairs(
            mm[k].1.skip(a + 1),
        ) + enc_entries(mm.skip(k + 1)))),
{
    lemma_remainder_at_attr(v, n, mm, k, a, pos, pos2, posa, an, im0, path);
    let im = mm[k].1;
    lemma_pair_head(im, a);
    assert(enc_pairs(im.skip(a)) + enc_entries(mm.skip(k + 1)) =~= enc_str(im[a].0) + (enc_str(
        im[a].1,
    ) + (enc_pairs(im.skip(a + 1)) + enc_entries(mm.skip(k + 1)))));
}

/// No attribute name field stands where one is owed: the text encodes no
/// well-formed snapshot.
proof fn lemma_corrupt_attr_key(
    v: Seq<char>,
    n: nat,
    fm0: MapModel,
    k: int,
    a: int,
    pos: int,
    pos2: int,
    posa: int,
    an: nat,
    im0: PairsModel,
    path: Seq<char>,
)
    requires
        0 <= pos <= pos2 <= posa <= v.len(),
        v.subrange(0, pos) == dec_digits(n) + seq![':'] + enc_entries(fm0),
        v.subrange(pos, pos2) == enc_str(path),
        v.subrange(pos2, posa) == dec_digits(an) + seq![':'] + enc_pairs(im0),
        0 <= a < an,
        forall|mm: MapModel|
            wf_model(mm) && v == #[trigger] enc_map(mm) ==> mm.len() == n && 0 <= k < mm.len()
                && mm.take(k) == fm0 && path == mm[k].0 && mm[k].1.len() == an && im0
                == mm[k].1.take(a),
        forall|sv: Seq<char>, rest: Seq<char>| v.skip(posa) != enc_str(sv) + rest,
    ensures
        forall|mm: MapModel| wf_model(mm) ==> v != enc_map(mm),
{
    assert forall|mm: MapModel| wf_model(mm) implies v != enc_map(mm) by {
        if v == enc_map(mm) {
            lemma_attr_head_form(v, n, mm, k, a, pos, pos2, posa, an, im0, path);
        }
    }
}

/// An attribute name out of order: the text encodes no well-formed snapshot.
proof fn lemma_corrupt_attr_order(
    v: Seq<char>,
    n: nat,
    fm0: MapModel,
    k: int,
    a: int,
    pos: int,
    pos2: int,
    posa: int,
    posk: int,
    an: nat,
    im0: PairsModel,
    path: Seq<char>,
    key: Seq<char>,
)
    requires
        0 <= pos <= pos2 <= posa <= posk <= v.len(),
        v.subrange(0, pos) == dec_digits(n) + seq![':'] + enc_entries(fm0),
        v.subrange(pos, pos2) == enc_str(path),
        v.subrange(pos2, posa) == dec_digits(an) + seq![':'] + enc_pairs(im0),
        v.subrange(posa, posk) == enc_str(key),
        0 < a < an,
        im0.len() == a,
        !lex_lt(im0[a - 1].0, key),
        forall|mm: MapModel|
            wf_model(mm) && v == #[trigger] enc_map(mm) ==> mm.len() == n && 0 <= k < mm.len()
                && mm.take(k) == fm0 && path == mm[k].0 && mm[k].1.len() == an && im0
                == mm[k].1.take(a),
    ensures
        forall|mm: MapModel| wf_model(mm) ==> v != enc_map(mm),
{
    assert forall|mm: MapModel| wf_model(mm) implies v != enc_map(mm) by {
        if v == enc_map(mm) {
            lemma_attr_head_form(v, n, mm, k, a, pos, pos2, posa, an, im0, path);
            let im = mm[k].1;
            assert(v.skip(posa) =~= v.subrange(posa, posk) + v.skip(posk));
            lemma_enc_str_unambiguous(
                key,
                im[a].0,
                v.skip(posk),
                enc_str(im[a].1) + (enc_pairs(im.skip(a + 1)) + enc_entries(mm.skip(k + 1))),
            );
            assert(im0[a - 1].0 == im.take(a)[a - 1].0);
            assert(im[a - 1].0 == im.take(a)[a - 1].0);
            assert(pairs_sorted(mm[k].1));
            assert(lex_lt(im[a - 1].0, im[a].0));
        }
    }
}

/// No attribute value field stands where one is owed: the text encodes no
/// well-formed snapshot.
proof fn lemma_corrupt_attr_value(
    v: Seq<char>,
    n: nat,
    fm0: MapModel,
    k: int,
    a: int,
    pos: int,
    pos2: int,
    posa: int,
    posk: int,
    an: nat,
    im0: PairsModel,
    path: Seq<char>,
    key: Seq<char>,
)
    requires
        0 <= pos <= pos2 <= posa <= posk <= v.len(),
        v.subrange(0, pos) == dec_digits(n) + seq![':'] + enc_entries(fm0),
        v.subrange(pos, pos2) == enc_str(path),
        v.subrange(pos2, posa) == dec_digits(an) + seq![':'] + enc_pairs(im0),
        v.subrange(posa, posk) == enc_str(key),
        0 <= a < an,
        forall|mm: MapModel|
            wf_model(mm) && v == #[trigger] enc_map(mm) ==> mm.len() == n && 0 <= k < mm.len()
                && mm.take(k) == fm0 && path == mm[k].0 && mm[k].1.len() == an && im0
                == mm[k].1.take(a),
        forall|sv: Seq<char>, rest: Seq<char>| v.skip(posk) != enc_str(sv) + rest,
    ensures
        forall|mm: MapModel| wf_model(mm) ==> v != enc_map(mm),
{
    assert forall|mm: MapModel| wf_model(mm) implies v != enc_map(mm) by {
        if v == enc_map(mm) {
            lemma_attr_head_form(v, n, mm, k, a, pos, pos2, posa, an, im0, path);
            let im = mm[k].1;
            assert(v.skip(posa) =~= v.subrange(posa, posk) + v.skip(posk));
            lemma_enc_str_unambiguous(
                key,
                im[a].0,
                v.skip(posk),
                enc_str(im[a].1) + (enc_pairs(im.skip(a + 1)) + enc_entries(mm.skip(k + 1))),
            );
        }
    }
}

/// One parsed attribute extends the parsed prefix of whatever well-formed
/// snapshot the whole text encodes.
proof fn lemma_attr_step(
    v: Seq<char>,
    n: nat,
    fm0: MapModel,
    k: int,
    a: int,
    pos: int,
    pos2: int,
    posa: int,
    posk: int,
    posv: int,
    an: nat,
    im0: PairsModel,
    path: Seq<char>,
    key: Seq<char>,
    value: Seq<char>,
)
    requires
        0 <= pos <= pos2 <= posa <= posk <= posv <= v.len(),
        v.subrange(0, pos) == dec_digits(n) + seq![':'] + enc_entries(fm0),
        v.subrange(pos, pos2) == enc_str(path),
        v.subrange(pos2, posa) == dec_digits(an) + seq![':'] + enc_pairs(im0),
        v.subrange(posa, posk) == enc_str(key),
        v.subrange(posk, posv) == enc_str(value),
        0 <= a < an,
        forall|mm: MapModel|
            wf_model(mm) && v == #[trigger] enc_map(mm) ==> mm.len() == n && 0 <= k < mm.len()
                && mm.take(k) == fm0 && path == mm[k].0 && mm[k].1.len() == an && im0
                == mm[k].1.take(a),
    ensures
        forall|mm: MapModel|
            wf_model(mm) && v == #[trigger] enc_map(mm) ==> mm.take(k) == fm0 && path == mm[k].0
                && mm[k].1.len() == an && im0.push((key, value)) == mm[k].1.take(a + 1),
{
    assert forall|mm: MapModel|
        wf_model(mm) && v == #[trigger] enc_map(mm) implies mm.take(k) == fm0 && path == mm[k].0
        && mm[k].1.len() == an && im0.push((key, value)) == mm[k].1.take(a + 1) by {
        lemma_attr_head_form(v, n, mm, k, a, pos, pos2, posa, an, im0, path);
        let im = mm[k].1;
        assert(v.skip(posa) =~= v.subrange(posa, posk) + v.skip(posk));
        lemma_enc_str_unambiguous(
            key,
            im[a].0,
            v.skip(posk),
            enc_str(im[a].1) + (enc_pairs(im.skip(a + 1)) + enc_entries(mm.skip(k + 1))),
        );
        assert(v.skip(posk) =~= v.subrange(posk, posv) + v.skip(posv));
        lemma_enc_str_unambiguous(
            value,
            im[a].1,
            v.skip(posv),
            enc_pairs(im.skip(a + 1)) + enc_entries(mm.skip(k + 1)),
        );
        assert(im.take(a + 1) =~= im.take(a).push(im[a]));
        assert(im0.push((key, value)) =~= im.take(a + 1));
    }
}

/// No path field stands where an entry is owed: the text encodes no
/// well-formed snapshot.
proof fn lemma_corrupt_entry_path(v: Seq<char>, n: nat, fm0: MapModel, k: int, pos: int)
    requires
        0 <= pos <= v.len(),
        v.subrange(0, pos) == dec_digits(n) + seq![':'] + enc_entries(fm0),
        forall|mm: MapModel|
            wf_model(mm) && v == #[trigger] enc_map(mm) ==> mm.len() == n && 0 <= k < mm.len()
                && mm.take(k) == fm0,
        forall|sv: Seq<char>, rest: Seq<char>| v.skip(pos) != enc_str(sv) + rest,
    ensures
        forall|mm: MapModel| wf_model(mm) ==> v != enc_map(mm),
{
    assert forall|mm: MapModel| wf_model(mm) implies v != enc_map(mm) by {
        if v == enc_map(mm) {
            lemma_remainder_at_entry(v, pos, n, mm, k);
            lemma_entry_head(mm, k);
            assert(enc_str(mm[k].0) + enc_item(mm[k].1) + enc_entries(mm.skip(k + 1)) =~= enc_str(
                mm[k].0,
            ) + (enc_item(mm[k].1) + enc_entries(mm.skip(k + 1))));
        }
    }
}

/// A path out of order: the text encodes no well-formed snapshot.
proof fn lemma_corrupt_path_order(
    v: Seq<char>,
    n: nat,
    fm0: MapModel,
    k: int,
    pos: int,
    pos2: int,
    path: Seq<char>,
)
    requires
        0 <= pos <= pos2 <= v.len(),
        v.subrange(0, pos) == dec_digits(n) + seq![':'] + enc_entries(fm0),
        v.subrange(pos, pos2) == enc_str(path),
        0 < k,
        fm0.len() == k,
        !lex_lt(fm0[k - 1].0, path),
        forall|mm: MapModel|
            wf_model(mm) && v == #[trigger] enc_map(mm) ==> mm.len() == n && 0 <= k < mm.len()
                && mm.take(k) == fm0,
    ensures
        forall|mm: MapModel| wf_model(mm) ==> v != enc_map(mm),
{
    assert forall|mm: MapModel| wf_model(mm) implies v != enc_map(mm) by {
        if v == enc_map(mm) {
            lemma_remainder_at_entry(v, pos, n, mm, k);
            lemma_entry_head(mm, k);
            assert(enc_str(mm[k].0) + enc_item(mm[k].1) + enc_entries(mm.skip(k + 1)) =~= enc_str(
                mm[k].0,
            ) + (enc_item(mm[k].1) + enc_entries(mm.skip(k + 1))));
            assert(v.skip(pos) =~= v.subrange(pos, pos2) + v.skip(pos2));
            lemma_enc_str_unambiguous(
                path,
                mm[k].0,
                v.skip(pos2),
                enc_item(mm[k].1) + enc_entries(mm.skip(k + 1)),
            );
            assert(fm0[k - 1].0 == mm.take(k)[k - 1].0);
            assert(mm[k - 1].0 == mm.take(k)[k - 1].0);
            assert(lex_lt(mm[k - 1].0, mm[k].0));
        }
    }
}

/// No attribute count stands after an entry's path: the text encodes no
/// well-formed snapshot.
proof fn lemma_corrupt_attr_count(
    v: Seq<char>,
    n: nat,
    fm0: MapModel,
    k: int,
    pos: int,
    pos2: int,
    path: Seq<char>,
)
    requires
        0 <= pos <= pos2 <= v.len(),
        v.len() <= usize::MAX,
        v.subrange(0, pos) == dec_digits(n) + seq![':'] + enc_entries(fm0),
        v.subrange(pos, pos2) == enc_str(path),
        forall|mm: MapModel|
            wf_model(mm) && v == #[trigger] enc_map(mm) ==> mm.len() == n && 0 <= k < mm.len()
                && mm.take(k) == fm0,
        forall|nn: nat, rest: Seq<char>|
            nn <= usize::MAX ==> v.skip(pos2) != dec_digits(nn) + seq![':'] + rest,
    ensures
        forall|mm: MapModel| wf_model(mm) ==> v != enc_map(mm),
{
    assert forall|mm: MapModel| wf_model(mm) implies v != enc_map(mm) by {
        if v == enc_map(mm) {
            lemma_remainder_at_entry(v, pos, n, mm, k);
            lemma_entry_head(mm, k);
            assert(enc_str(mm[k].0) + enc_item(mm[k].1) + enc_entries(mm.skip(k + 1)) =~= enc_str(
                mm[k].0,
            ) + (enc_item(mm[k].1) + enc_entries(mm.skip(k + 1))));
            assert(v.skip(pos) =~= v.subrange(pos, pos2) + v.skip(pos2));
            lemma_enc_str_unambiguous(
                path,
                mm[k].0,
                v.skip(pos2),
                enc_item(mm[k].1) + enc_entries(mm.skip(k + 1)),
            );
            let im = mm[k].1;
            assert(enc_item(im) + enc_entries(mm.skip(k + 1)) =~= dec_digits(im.len())
                + seq![':'] + (enc_pairs(im) + enc_entries(mm.skip(k + 1))));
            lemma_enc_pairs_len(im);
            crate::text::lemma_dec_digits_are_digits(im.len());
            assert(v.skip(pos2) == enc_item(im) + enc_entries(mm.skip(k + 1)));
            assert(v.skip(pos2).len() == enc_item(im).len() + enc_entries(mm.skip(k + 1)).len());
            assert(enc_item(im).len() >= im.len());
            assert(v.skip(pos2).len() <= v.len());
            assert(im.len() <= usize::MAX);
        }
    }
}

/// One parsed entry extends the parsed prefix of whatever well-formed
/// snapshot the whole text encodes.
proof fn lemma_entry_step(
    v: Seq<char>,
    n: nat,
    fm0: MapModel,
    k: int,
    path: Seq<char>,
    an: nat,
    item_final: PairsModel,
)
    requires
        item_final.len() == an,
        forall|mm: MapModel|
            wf_model(mm) && v == #[trigger] enc_map(mm) ==> mm.len() == n && 0 <= k < mm.len()
                && mm.take(k) == fm0 && path == mm[k].0 && mm[k].1.len() == an && item_final
                == mm[k].1.take(an as int),
    ensures
        forall|mm: MapModel|
            wf_model(mm) && v == #[trigger] enc_map(mm) ==> mm.len() == n && mm.take(k + 1)
                == fm0.push((path, item_final)),
{
    assert forall|mm: MapModel|
        wf_model(mm) && v == #[trigger] enc_map(mm) implies mm.len() == n && mm.take(k + 1)
        == fm0.push((path, item_final)) by {
        assert(mm[k].1.take(an as int) =~= mm[k].1);
        assert(mm.take(k + 1) =~= mm.take(k).push(mm[k]));
    }
}

/// Attribute fields are unambiguous: equal texts split over equally many
/// pairs split identically.
pub proof fn lemma_enc_pairs_unambiguous(a: PairsModel, b: PairsModel, ra: Seq<char>, rb: Seq<char>)
    requires
        a.len() == b.len(),
        enc_pairs(a) + ra == enc_pairs(b) + rb,
    ensures
        a == b,
        ra == rb,
    decreases a.len(),
{
    if a.len() == 0 {
        assert(enc_pairs(a) + ra =~= ra);
        assert(enc_pairs(b) + rb =~= rb);
    } else {
        assert(enc_pairs(a) + ra =~= enc_str(a[0].0) + (enc_str(a[0].1) + (enc_pairs(a.skip(1))
            + ra)));
        assert(enc_pairs(b) + rb =~= enc_str(b[0].0) + (enc_str(b[0].1) + (enc_pairs(b.skip(1))
            + rb)));
        lemma_enc_str_unambiguous(
            a[0].0,
            b[0].0,
            enc_str(a[0].1) + (enc_pairs(a.skip(1)) + ra),
            enc_str(b[0].1) + (enc_pairs(b.skip(1)) + rb),
        );
        lemma_enc_str_unambiguous(
            a[0].1,
            b[0].1,
            enc_pairs(a.skip(1)) + ra,
            enc_pairs(b.skip(1)) + rb,
        );
        lemma_enc_pairs_unambiguous(a.skip(1), b.skip(1), ra, rb);
        assert(a[0] == b[0]);
        assert forall|i: int| 0 <= i < a.len() implies a[i] == b[i] by {
            if i > 0 {
                assert(a[i] == a.skip(1)[i - 1]);
                assert(b[i] == b.skip(1)[i - 1]);
            }
        }
        assert(a =~= b);
    }
}

/// Snapshot entries are unambiguous in the same way.
#[verifier::rlimit(50)]
pub proof fn lemma_enc_entries_unambiguous(a: MapModel, b: MapModel, ra: Seq<char>, rb: Seq<char>)
    requires
        a.len() == b.len(),
        enc_entries(a) + ra == enc_entries(b) + rb,
    ensures
        a == b,
        ra == rb,
    decreases a.len(),
{
    if a.len() == 0 {
        assert(enc_entries(a) + ra =~= ra);
        assert(enc_entries(b) + rb =~= rb);
    } else {
        let ta = enc_pairs(a[0].1) + (enc_entries(a.skip(1)) + ra);
        let tb = enc_pairs(b[0].1) + (enc_entries(b.skip(1)) + rb);
        assert(enc_entries(a) + ra =~= enc_str(a[0].0) + (dec_digits(a[0].1.len()) + seq![':']
            + ta));
        assert(enc_entries(b) + rb =~= enc_str(b[0].0) + (dec_digits(b[0].1.len()) + seq![':']
            + tb));
        lemma_enc_str_unambiguous(
            a[0].0,
            b[0].0,
            dec_digits(a[0].1.len()) + seq![':'] + ta,
            dec_digits(b[0].1.len()) + seq![':'] + tb,
        );
        lemma_numeral_field_unambiguous(a[0].1.len(), b[0].1.len(), ta, tb);
        lemma_enc_pairs_unambiguous(a[0].1, b[0].1, enc_entries(a.skip(1)) + ra, enc_entries(
            b.skip(1),
        ) + rb);
        lemma_enc_entries_unambiguous(a.skip(1), b.skip(1), ra, rb);
        assert(a[0] == b[0]);
        assert forall|i: int| 0 <= i < a.len() implies a[i] == b[i] by {
            if i > 0 {
                assert(a[i] == a.skip(1)[i - 1]);
                assert(b[i] == b.skip(1)[i - 1]);
            }
        }
        assert(a =~= b);
    }
}

/// The canonical snapshot encoding is injective: two snapshots with the
/// same encoding are the same snapshot. Together with the contracts of
/// `encode_files_map` and `decode_files_map` this says that decoding the
/// encoding of any snapshot gives back exactly that snapshot.
pub proof fn lemma_snapshot_encoding_injective(a: MapModel, b: MapModel)
    requires
        enc_map(a) == enc_map(b),
    ensures
        a == b,
{
    lemma_numeral_field_unambiguous(a.len(), b.len(), enc_entries(a), enc_entries(b));
    let e = Seq::<char>::empty();
    assert(enc_entries(a) + e =~= enc_entries(a));
    assert(enc_entries(b) + e =~= enc_entries(b));
    lemma_enc_entries_unambiguous(a, b, e, e);
}

/// Snapshot builds are deterministic: the same content map, sizes, and
/// clock value always yield byte-identical canonical encodings.
pub proof fn lemma_build_deterministic(
    cm: PairsModel,
    sizes: Seq<Option<u64>>,
    now: Seq<char>,
    m1: MapModel,
    m2: MapModel,
)
    requires
        m1 == build_model(cm, sizes, now),
        m2 == build_model(cm, sizes, now),
    ensures
        enc_map(m1) == enc_map(m2),
{
}

/// The end-to-end guarantee behind publishing and resolving a snapshot:
/// any snapshot whose canonical encoding equals the encoding of a built
/// snapshot is that built snapshot, so a container whose latest version
/// holds the build's encoding resolves to exactly the content map's paths,
/// each item linking to the content map's address, with the file's size,
/// its lowercased extension (or `"unknown"`), and the one build timestamp
/// as both `created` and `modified`.
pub proof fn lemma_latest_snapshot_resolves(
    cm: PairsModel,
    sizes: Seq<Option<u64>>,
    now: Seq<char>,
    m: MapModel,
)
    requires
        sizes.len() == cm.len(),
        enc_map(m) == enc_map(build_model(cm, sizes, now)),
    ensures
        m == build_model(cm, sizes, now),
        m.len() == cm.len(),
        forall|i: int|
            0 <= i < cm.len() ==> (#[trigger] m[i]).0 == cm[i].0 && pair_lookup(
                m[i].1,
                link_key(),
            ) == Some(cm[i].1) && pair_lookup(m[i].1, type_key()) == Some(file_type_of(cm[i].0))
                && pair_lookup(m[i].1, size_key()) == Some(
                dec_digits(sizes[i]->Some_0 as nat),
            ) && pair_lookup(m[i].1, created_key()) == Some(now) && pair_lookup(
                m[i].1,
                modified_key(),
            ) == Some(now),
{
    lemma_snapshot_encoding_injective(m, build_model(cm, sizes, now));
    assert forall|i: int|
        0 <= i < cm.len() implies (#[trigger] m[i]).0 == cm[i].0 && pair_lookup(
        m[i].1,
        link_key(),
    ) == Some(cm[i].1) && pair_lookup(m[i].1, type_key()) == Some(file_type_of(cm[i].0))
        && pair_lookup(m[i].1, size_key()) == Some(dec_digits(sizes[i]->Some_0 as nat))
        && pair_lookup(m[i].1, created_key()) == Some(now) && pair_lookup(
        m[i].1,
        modified_key(),
    ) == Some(now) by {
        lemma_build_model_attributes(cm, sizes, now, i);
    }
}

/// Decodes canonical snapshot text back to the snapshot it encodes; every
/// string that `encode_files_map` does not produce for a well-formed
/// snapshot is rejected with `CorruptSnapshot`.
#[verifier::rlimit(100)]
pub fn decode_files_map(s: &str) -> (r: Result<FilesMap, SafeError>)
    ensures
        match r {
            Ok(m) => m.wf() && s@ == enc_map(m.model()),
            Err(e) => e == SafeError::CorruptSnapshot && (forall|mm: MapModel|
                wf_model(mm) ==> s@ != enc_map(mm)),
        },
{
    let v = str_chars(s);
    let vl = v.len();
    let (n, first_pos) = match parse_len(&v, 0) {
        Some(p) => p,
        None => {
            proof {
                assert forall|mm: MapModel| wf_model(mm) implies s@ != enc_map(mm) by {
                    if s@ == enc_map(mm) {
                        lemma_enc_entries_len(mm);
                        assert(mm.len() <= usize::MAX);
                        assert(v@.skip(0) =~= v@);
                    }
                }
            }
            return Err(SafeError::CorruptSnapshot);
        },
    };
    let mut fm = FilesMap::new();
    let mut prev: Vec<char> = Vec::new();
    let mut pos = first_pos;
    let mut k: usize = 0;
    proof {
        assert(fm.model().take(0) =~= MapModel::empty());
        assert(enc_entries(MapModel::empty()) == Seq::<char>::empty());
        assert(v@.subrange(0, pos as int) =~= dec_digits(n as nat) + seq![':'] + enc_entries(
            fm.model(),
        ));
        assert forall|mm: MapModel|
            wf_model(mm) && s@ == #[trigger] enc_map(mm) implies mm.len() == n && mm.take(
            k as int,
        ) == fm.model() by {
            assert(v@ =~= v@.subrange(0, pos as int) + v@.skip(pos as int));
            assert(v@.subrange(0, pos as int) + v@.skip(pos as int) =~= dec_digits(n as nat)
                + seq![':'] + v@.skip(pos as int));
            assert(v@.skip(0) =~= v@);
            lemma_numeral_field_unambiguous(n as nat, mm.len(), v@.skip(pos as int), enc_entries(
                mm,
            ));
            assert(mm.take(k as int) =~= fm.model());
        }
    }
    while k < n
        invariant
            v@ == s@,
            vl == v@.len(),
            k <= n,
            pos <= vl,
            fm.wf(),
            fm.model().len() == k,
            v@.subrange(0, pos as int) == dec_digits(n as nat) + seq![':'] + enc_entries(
                fm.model(),
            ),
            k > 0 ==> prev@ == fm.model()[k - 1].0,
            forall|mm: MapModel|
                wf_model(mm) && s@ == #[trigger] enc_map(mm) ==> mm.len() == n && mm.take(
                    k as int,
                ) == fm.model(),
        decreases n - k,
    {
        let ghost fm0 = fm.model();
        let (path, pos2) = match parse_str_field(&v, pos) {
            Some(p) => p,
            None => {
                proof {
                    lemma_corrupt_entry_path(v@, n as nat, fm0, k as int, pos as int);
                }
                return Err(SafeError::CorruptSnapshot);
            },
        };
        let pc = str_chars(path.as_str());
        if k > 0 {
            let still_sorted = chars_lt(&prev, &pc);
            if !still_sorted {
                proof {
                    lemma_corrupt_path_order(v@, n as nat, fm0, k as int, pos as int,
                        pos2 as int, path@);
                }
                return Err(SafeError::CorruptSnapshot);
            }
        }
        let (an, mut posa) = match parse_len(&v, pos2) {
            Some(p) => p,
            None => {
                proof {
                    lemma_corrupt_attr_count(v@, n as nat, fm0, k as int, pos as int,
                        pos2 as int, path@);
                }
                return Err(SafeError::CorruptSnapshot);
            },
        };
        let mut item = FileItem::new();
        let mut prev_key: Vec<char> = Vec::new();
        let mut a: usize = 0;
        proof {
            assert(item.model().take(0) =~= PairsModel::empty());
            assert(enc_pairs(PairsModel::empty()) == Seq::<char>::empty());
            assert(v@.subrange(pos2 as int, posa as int) =~= dec_digits(an as nat) + seq![':']
                + enc_pairs(item.model()));
            assert forall|mm: MapModel|
                wf_model(mm) && s@ == #[trigger] enc_map(mm) implies mm.take(k as int) == fm0
                && path@ == mm[k as int].0 && mm[k as int].1.len() == an && item.model()
                == mm[k as int].1.take(a as int) by {
                assert(mm.take(k as int) == fm0);
                lemma_remainder_at_entry(v@, pos as int, n as nat, mm, k as int);
                lemma_entry_head(mm, k as int);
                assert(enc_str(mm[k as int].0) + enc_item(mm[k as int].1) + enc_entries(mm.skip(
                    k + 1,
                )) =~= enc_str(mm[k as int].0) + (enc_item(mm[k as int].1) + enc_entries(mm.skip(
                    k + 1,
                ))));
                assert(v@.skip(pos as int) =~= v@.subrange(pos as int, pos2 as int) + v@.skip(
                    pos2 as int,
                ));
                lemma_enc_str_unambiguous(
                    path@,
                    mm[k as int].0,
                    v@.skip(pos2 as int),
                    enc_item(mm[k as int].1) + enc_entries(mm.skip(k + 1)),
                );
                let im = mm[k as int].1;
                assert(enc_item(im) + enc_entries(mm.skip(k + 1)) =~= dec_digits(im.len())
                    + seq![':'] + (enc_pairs(im) + enc_entries(mm.skip(k + 1))));
                assert(v@.skip(pos2 as int) =~= v@.subrange(pos2 as int, posa as int) + v@.skip(
                    posa as int,
                ));
                assert(v@.subrange(pos2 as int, posa as int) + v@.skip(posa as int) =~= dec_digits(
                    an as nat,
                ) + seq![':'] + v@.skip(posa as int));
                lemma_numeral_field_unambiguous(an as nat, im.len(), v@.skip(posa as int),
                    enc_pairs(im) + enc_entries(mm.skip(k + 1)));
                assert(im.take(a as int) =~= item.model());
            }
        }
        while a < an
            invariant
                v@ == s@,
                vl == v@.len(),
                k < n,
                a <= an,
                posa <= vl,
                pos <= pos2 <= posa,
                item.wf(),
                item.model().len() == a,
                fm.wf(),
                fm.model() == fm0,
                fm.model().len() == k,
                pc@ == path@,
                v@.subrange(0, pos as int) == dec_digits(n as nat) + seq![':'] + enc_entries(fm0),
                v@.subrange(pos as int, pos2 as int) == enc_str(path@),
                v@.subrange(pos2 as int, posa as int) == dec_digits(an as nat) + seq![':']
                    + enc_pairs(item.model()),
                a > 0 ==> prev_key@ == item.model()[a - 1].0,
                k > 0 ==> prev@ == fm0[k - 1].0,
                forall|mm: MapModel|
                    wf_model(mm) && s@ == #[trigger] enc_map(mm) ==> mm.len() == n && mm.take(
                        k as int,
                    ) == fm0,
                forall|mm: MapModel|
                    wf_model(mm) && s@ == #[trigger] enc_map(mm) ==> mm.take(k as int) == fm0
                        && path@ == mm[k as int].0 && mm[k as int].1.len() == an
                        && item.model() == mm[k as int].1.take(a as int),
            decreases an - a,
        {
            let ghost im0 = item.model();
            let kv = match parse_str_field(&v, posa) {
                Some(p) => p,
                None => {
                    proof {
                        lemma_corrupt_attr_key(v@, n as nat, fm0, k as int, a as int, pos as int,
                            pos2 as int, posa as int, an as nat, im0, path@);
                    }
                    return Err(SafeError::CorruptSnapshot);
                },
            };
            let key = kv.0;
            let posk = kv.1;
            let kc = str_chars(key.as_str());
            if a > 0 {
                let keys_sorted_still = chars_lt(&prev_key, &kc);
                if !keys_sorted_still {
                    proof {
                        lemma_corrupt_attr_order(v@, n as nat, fm0, k as int, a as int,
                            pos as int, pos2 as int, posa as int, posk as int, an as nat, im0,
                            path@, key@);
                    }
                    return Err(SafeError::CorruptSnapshot);
                }
            }
            let vv = match parse_str_field(&v, posk) {
                Some(p) => p,
                None => {
                    proof {
                        lemma_corrupt_attr_value(v@, n as nat, fm0, k as int, a as int,
                            pos as int, pos2 as int, posa as int, posk as int, an as nat, im0,
                            path@, key@);
                    }
                    return Err(SafeError::CorruptSnapshot);
                },
            };
            let value = vv.0;
            let posv = vv.1;
            proof {
                if im0.len() > 0 {
                    assert forall|t: int| 0 <= t < im0.len() implies lex_lt(
                        #[trigger] im0[t].0,
                        key@,
                    ) by {
                        if t < im0.len() - 1 {
                            assert(lex_lt(im0[t].0, im0[im0.len() - 1].0));
                            lemma_lex_lt_transitive(im0[t].0, im0[im0.len() - 1].0, key@);
                        }
                    }
                }
                lemma_attr_step(v@, n as nat, fm0, k as int, a as int, pos as int, pos2 as int,
                    posa as int, posk as int, posv as int, an as nat, im0, path@, key@, value@);
            }
            item.push_attr(key, value);
            prev_key = kc;
            proof {
                assert(v@.subrange(pos2 as int, posv as int) =~= v@.subrange(pos2 as int,
                    posa as int) + v@.subrange(posa as int, posk as int) + v@.subrange(
                    posk as int, posv as int));
                lemma_enc_pairs_concat(im0, seq![(prev_key@, value@)]);
                assert(seq![(prev_key@, value@)].skip(1) =~= PairsModel::empty());
                assert(enc_pairs(PairsModel::empty()) == Seq::<char>::empty());
                assert(enc_pairs(seq![(prev_key@, value@)]) =~= enc_str(prev_key@) + enc_str(
                    value@,
                ));
                assert(item.model() == im0.push((prev_key@, value@)));
                assert(item.model() =~= im0 + seq![(prev_key@, value@)]);
                assert(v@.subrange(pos2 as int, posv as int) =~= dec_digits(an as nat) + seq![':']
                    + enc_pairs(item.model()));
            }
            posa = posv;
            a += 1;
        }
        proof {
            if fm0.len() > 0 {
                assert forall|t: int| 0 <= t < fm0.len() implies lex_lt(
                    #[trigger] fm0[t].0,
                    path@,
                ) by {
                    if t < fm0.len() - 1 {
                        assert(lex_lt(fm0[t].0, fm0[fm0.len() - 1].0));
                        lemma_lex_lt_transitive(fm0[t].0, fm0[fm0.len() - 1].0, pc@);
                    }
                }
            }
        }
        let ghost item_final = item.model();
        fm.push_entry(path, item);
        prev = pc;
        proof {
            assert(v@.subrange(0, posa as int) =~= v@.subrange(0, pos as int) + v@.subrange(
                pos as int, pos2 as int) + v@.subrange(pos2 as int, posa as int));
            lemma_enc_entries_concat(fm0, seq![(pc@, item_final)]);
            assert(seq![(pc@, item_final)].skip(1) =~= MapModel::empty());
            assert(enc_entries(MapModel::empty()) == Seq::<char>::empty());
            assert(enc_entries(seq![(pc@, item_final)]) =~= enc_str(pc@) + enc_item(item_final));
            assert(fm.model() =~= fm0 + seq![(pc@, item_final)]);
            assert(v@.subrange(0, posa as int) =~= dec_digits(n as nat) + seq![':'] + enc_entries(
                fm.model(),
            ));
            lemma_entry_step(v@, n as nat, fm0, k as int, pc@, an as nat, item_final);
        }
        pos = posa;
        k += 1;
    }
    if pos != vl {
        proof {
            assert forall|mm: MapModel| wf_model(mm) implies s@ != enc_map(mm) by {
                if s@ == enc_map(mm) {
                    assert(mm.take(k as int) =~= mm);
                    assert(v@.subrange(0, pos as int) == enc_map(mm));
                    assert(v@.subrange(0, pos as int).len() == v@.len());
                }
            }
        }
        return Err(SafeError::CorruptSnapshot);
    }
    proof {
        assert(v@.subrange(0, pos as int) =~= v@);
        assert(s@ == enc_map(fm.model()));
    }
    Ok(fm)
}

/// Inside one item of a snapshot encoding, the text remaining after the
/// consumed attribute prefix is the remaining fields of that item followed
/// by the remaining entries.
proof fn lemma_remainder_at_attr(
    v: Seq<char>,
    n: nat,
    mm: MapModel,
    k: int,
    a: int,
    pos: int,
    pos2: int,
    posa: int,
    an: nat,
    im0: PairsModel,
    path: Seq<char>,
)
    requires
        v == enc_map(mm),
        mm.len() == n,
        0 <= k < mm.len(),
        0 <= pos <= pos2 <= posa <= v.len(),
        v.subrange(0, pos) == dec_digits(n) + seq![':'] + enc_entries(mm.take(k)),
        v.subrange(pos, pos2) == enc_str(path),
        v.subrange(pos2, posa) == dec_digits(an) + seq![':'] + enc_pairs(im0),
        path == mm[k].0,
        an == mm[k].1.len(),
        0 <= a <= mm[k].1.len(),
        im0 == mm[k].1.take(a),
    ensures
        v.skip(posa) == enc_pairs(mm[k].1.skip(a)) + enc_entries(mm.skip(k + 1)),
{
    let im = mm[k].1;
    let tail = enc_entries(mm.skip(k + 1));
    lemma_remainder_at_entry(v, pos, n, mm, k);
    lemma_entry_head(mm, k);
    assert(v.skip(pos) =~= v.subrange(pos, pos2) + v.skip(pos2));
    assert(enc_str(path) + enc_item(im) + tail =~= enc_str(path) + (enc_item(im) + tail));
    lemma_concat_cancel(enc_str(path), v.skip(pos2), enc_item(im) + tail);
    assert(v.skip(pos2) =~= v.subrange(pos2, posa) + v.skip(posa));
    let x = dec_digits(an) + seq![':'];
    assert(enc_item(im) + tail =~= x + (enc_pairs(im) + tail));
    assert(v.subrange(pos2, posa) + v.skip(posa) =~= x + (enc_pairs(im0) + v.skip(posa)));
    lemma_concat_cancel(x, enc_pairs(im0) + v.skip(posa), enc_pairs(im) + tail);
    assert(im.take(a) + im.skip(a) =~= im);
    lemma_enc_pairs_concat(im.take(a), im.skip(a));
    assert(enc_pairs(im) + tail =~= enc_pairs(im0) + (enc_pairs(im.skip(a)) + tail));
    lemma_concat_cancel(enc_pairs(im0), v.skip(posa), enc_pairs(im.skip(a)) + tail);
}

/// Encodes a snapshot as its canonical text.
///
/// Deterministic by construction: the result is a function of the
/// snapshot's model alone, so two structurally identical snapshots always
/// encode to identical text.
#[verifier::rlimit(50)]
pub fn encode_files_map(m: &FilesMap) -> (r: String)
    ensures
        r@ == enc_map(m.model()),
{
    let ghost mm = m.model();
    let mut out = u64_to_chars(m.entries.len() as u64);
    out.push(':');
    proof {
        assert(mm.take(0) =~= MapModel::empty());
        assert(out@ =~= dec_digits(mm.len()) + seq![':'] + enc_entries(mm.take(0)));
    }
    let n = m.entries.len();
    let mut k: usize = 0;
    while k < n
        invariant
            n == m.entries@.len(),
            mm == m.model(),
            k <= n,
            out@ == dec_digits(mm.len()) + seq![':'] + enc_entries(mm.take(k as int)),
        decreases n - k,
    {
        let ghost out0 = out@;
        push_str_field(&mut out, &m.entries[k].0);
        let item = &m.entries[k].1;
        let ghost im = item.model();
        let mut d = u64_to_chars(item.attrs.len() as u64);
        out.append(&mut d);
        out.push(':');
        proof {
            assert(im.take(0) =~= PairsModel::empty());
            assert(out@ =~= out0 + enc_str(mm[k as int].0) + dec_digits(im.len()) + seq![':']
                + enc_pairs(im.take(0)));
        }
        let an = item.attrs.len();
        let mut a: usize = 0;
        while a < an
            invariant
                n == m.entries@.len(),
                mm == m.model(),
                k < n,
                an == item.attrs@.len(),
                im == item.model(),
                item == &m.entries@[k as int].1,
                a <= an,
                out@ == out0 + enc_str(mm[k as int].0) + dec_digits(im.len()) + seq![':']
                    + enc_pairs(im.take(a as int)),
            decreases an - a,
        {
            let ghost outa = out@;
            push_str_field(&mut out, &item.attrs[a].0);
            push_str_field(&mut out, &item.attrs[a].1);
            proof {
                let t0 = im.take(a as int);
                let t1 = im.take(a + 1);
                assert(t1 =~= t0 + seq![im[a as int]]);
                lemma_enc_pairs_concat(t0, seq![im[a as int]]);
                assert(seq![im[a as int]].skip(1) =~= PairsModel::empty());
                assert(enc_pairs(PairsModel::empty()) == Seq::<char>::empty());
                assert(enc_pairs(seq![im[a as int]]) =~= enc_str(im[a as int].0) + enc_str(
                    im[a as int].1,
                ));
                assert(out@ =~= out0 + enc_str(mm[k as int].0) + dec_digits(im.len()) + seq![':']
                    + enc_pairs(t1));
            }
            a += 1;
        }
        proof {
            assert(im.take(an as int) =~= im);
            let t0 = mm.take(k as int);
            let t1 = mm.take(k + 1);
            assert(t1 =~= t0 + seq![mm[k as int]]);
            lemma_enc_entries_concat(t0, seq![mm[k as int]]);
            assert(seq![mm[k as int]].skip(1) =~= MapModel::empty());
            assert(enc_entries(MapModel::empty()) == Seq::<char>::empty());
            assert(enc_entries(seq![mm[k as int]]) =~= enc_str(mm[k as int].0) + enc_item(
                mm[k as int].1,
            ));
            assert(out@ =~= dec_digits(mm.len()) + seq![':'] + enc_entries(t1));
        }
        k += 1;
    }
    proof {
        assert(mm.take(n as int) =~= mm);
    }
    chars_string(&out)
}

} // verus!
