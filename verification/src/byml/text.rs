//! The YAML text bridge for BYML documents: a parser and an emitter
//! over a flow-style YAML subset that preserves every scalar width
//! through tag annotations.
//!
//! The supported text form is: flow sequences `[..]` and flow
//! mappings `{..}` (single-line or spread over indented lines),
//! double- or single-quoted strings, and plain scalars, optionally
//! prefixed by one of the tags `!u`, `!l`, `!ul`, `!f64`, or
//! `!!binary`. Small containers of scalars are emitted on one line;
//! larger ones one element per line. Mappings are emitted key-sorted,
//! and the parser stores mapping entries key-sorted as well — a
//! duplicate key in a document is refused — so a parsed tree
//! re-emits to the same text. The emitted text is pinned exactly by
//! [`text_of`]; the scalar layer of parsing is pinned by
//! [`scalar_node_rel`].
use vstd::prelude::*;
use vstd::string::*;

use super::Byml;
use crate::aamp::{AampError, Result};
use crate::yaml::{
    base64_bytes_of, base64_decode, base64_encode, base64_text_of, chars_eq_str, chars_of,
    f32_bits_of_text, f32_dec_of, f32_text, f64_dec_of, f64_text, hex_int_text, i64_text,
    int_text, lex_scalar, parse_f32_bits, parse_scalar, spec_string_needs_quotes, str_eq,
    string_from_chars, string_needs_quotes, u64_hex_text, Scalar, SpecScalar, TagBasedType,
};

verus! {

broadcast use vstd::string::group_string_axioms;

/// Whether a tag names the YAML binary type.
pub fn is_binary_tag(tag: &str) -> (r: bool)
    ensures
        r <==> (tag@ == "tag:yaml.org,2002:binary"@ || tag@ == "!!binary"@),
{
    str_eq(tag, "tag:yaml.org,2002:binary") || str_eq(tag, "!!binary")
}

/// The coarse type a BYML-specific tag asks for, if any.
pub fn recognize_tag(tag: &str) -> (r: Option<TagBasedType>)
    ensures
        r == Some(TagBasedType::Float) <==> tag@ == "!f64"@,
        r == Some(TagBasedType::Int) <==> (tag@ == "!u"@ || tag@ == "!l"@ || tag@ == "!ul"@),
        r == Some(TagBasedType::Str) <==> (tag@ == "tag:yaml.org,2002:binary"@ || tag@
            == "!!binary"@),
        r is None <==> !(tag@ == "!f64"@ || tag@ == "!u"@ || tag@ == "!l"@ || tag@ == "!ul"@
            || tag@ == "tag:yaml.org,2002:binary"@ || tag@ == "!!binary"@),
        r == spec_tag_type(tag@),
{
    proof {
        reveal_strlit("!f64");
        reveal_strlit("!u");
        reveal_strlit("!l");
        reveal_strlit("!ul");
        reveal_strlit("tag:yaml.org,2002:binary");
        reveal_strlit("!!binary");
        assert("!f64"@.len() == 4);
        assert("!u"@.len() == 2);
        assert("!l"@.len() == 2);
        assert("!ul"@.len() == 3);
        assert("tag:yaml.org,2002:binary"@.len() == 24);
        assert("!!binary"@.len() == 8);
        assert("!u"@[1] == 'u' && "!l"@[1] == 'l');
    }
    if str_eq(tag, "!f64") {
        Some(TagBasedType::Float)
    } else if str_eq(tag, "!u") || str_eq(tag, "!l") || str_eq(tag, "!ul") {
        Some(TagBasedType::Int)
    } else if str_eq(tag, "tag:yaml.org,2002:binary") || str_eq(tag, "!!binary") {
        Some(TagBasedType::Str)
    } else {
        None
    }
}

/// Whether a node is emitted on a single line: a container of fewer
/// than ten children, none of which is itself a container.
pub fn should_use_inline(byml: &Byml) -> (r: bool)
    ensures
        r == spec_should_use_inline(byml),
{
    match byml {
        Byml::Array(arr) => {
            if arr.len() >= 10 {
                return false;
            }
            let n: usize = arr.len();
            let mut i: usize = 0;
            while i < n
                invariant
                    *byml == Byml::Array(*arr),
                    n == arr@.len() < 10,
                    i <= n,
                    forall|j: int|
                        0 <= j < i ==> !((#[trigger] arr@[j]) matches Byml::Array(_)) && !(arr@[j]
                            matches Byml::Hash(_)),
                decreases n - i,
            {
                match &arr[i] {
                    Byml::Array(_) => {
                        proof {
                            assert(arr@[i as int] matches Byml::Array(_));
                        }
                        return false;
                    },
                    Byml::Hash(_) => {
                        proof {
                            assert(arr@[i as int] matches Byml::Hash(_));
                        }
                        return false;
                    },
                    _ => {},
                }
                i = i + 1;
            }
            true
        },
        Byml::Hash(hash) => {
            if hash.len() >= 10 {
                return false;
            }
            let n: usize = hash.len();
            let mut i: usize = 0;
            while i < n
                invariant
                    *byml == Byml::Hash(*hash),
                    n == hash@.len() < 10,
                    i <= n,
                    forall|j: int|
                        0 <= j < i ==> !((#[trigger] hash@[j]).1 matches Byml::Array(_)) && !(
                        hash@[j].1 matches Byml::Hash(_)),
                decreases n - i,
            {
                match &hash[i].1 {
                    Byml::Array(_) => {
                        proof {
                            assert(hash@[i as int].1 matches Byml::Array(_));
                        }
                        return false;
                    },
                    Byml::Hash(_) => {
                        proof {
                            assert(hash@[i as int].1 matches Byml::Hash(_));
                        }
                        return false;
                    },
                    _ => {},
                }
                i = i + 1;
            }
            true
        },
        _ => false,
    }
}

/// Whether a node is emitted on a single line.
pub open spec fn spec_should_use_inline(byml: &Byml) -> bool {
    match byml {
        Byml::Array(arr) => arr@.len() < 10 && forall|j: int|
            0 <= j < arr@.len() ==> !((#[trigger] arr@[j]) matches Byml::Array(_)) && !(arr@[j]
                matches Byml::Hash(_)),
        Byml::Hash(hash) => hash@.len() < 10 && forall|j: int|
            0 <= j < hash@.len() ==> !((#[trigger] hash@[j]).1 matches Byml::Array(_)) && !(
            hash@[j].1 matches Byml::Hash(_)),
        _ => false,
    }
}

// ---------------------------------------------------------------
// Key ordering
// ---------------------------------------------------------------
/// Lexicographic order on text, by character code.
pub open spec fn str_le(a: Seq<char>, b: Seq<char>) -> bool
    decreases a.len(),
{
    if a.len() == 0 {
        true
    } else if b.len() == 0 {
        false
    } else if (a[0] as u32) < (b[0] as u32) {
        true
    } else if (a[0] as u32) > (b[0] as u32) {
        false
    } else {
        str_le(a.skip(1), b.skip(1))
    }
}

/// The key order is total.
pub proof fn lemma_str_le_total(a: Seq<char>, b: Seq<char>)
    ensures
        str_le(a, b) || str_le(b, a),
    decreases a.len(),
{
    if a.len() != 0 && b.len() != 0 && (a[0] as u32) == (b[0] as u32) {
        lemma_str_le_total(a.skip(1), b.skip(1));
    }
}

/// The key order is transitive.
pub proof fn lemma_str_le_trans(a: Seq<char>, b: Seq<char>, c: Seq<char>)
    requires
        str_le(a, b),
        str_le(b, c),
    ensures
        str_le(a, c),
    decreases a.len(),
{
    if a.len() != 0 && b.len() != 0 && c.len() != 0 && (a[0] as u32) == (b[0] as u32) && (
    b[0] as u32) == (c[0] as u32) {
        lemma_str_le_trans(a.skip(1), b.skip(1), c.skip(1));
    }
}

/// Compare two character vectors in the key order.
fn chars_le(a: &Vec<char>, b: &Vec<char>) -> (r: bool)
    ensures
        r == str_le(a@, b@),
{
    let mut i: usize = 0;
    proof {
        assert(a@.skip(0) =~= a@);
        assert(b@.skip(0) =~= b@);
    }
    loop
        invariant
            i <= a@.len(),
            i <= b@.len(),
            str_le(a@, b@) == str_le(a@.skip(i as int), b@.skip(i as int)),
        decreases a@.len() - i,
    {
        if i == a.len() {
            return true;
        }
        if i == b.len() {
            return false;
        }
        let ca: u32 = a[i] as u32;
        let cb: u32 = b[i] as u32;
        proof {
            assert(a@.skip(i as int)[0] == a@[i as int]);
            assert(b@.skip(i as int)[0] == b@[i as int]);
        }
        if ca < cb {
            return true;
        }
        if ca > cb {
            return false;
        }
        proof {
            assert(a@.skip(i as int).skip(1) =~= a@.skip(i + 1));
            assert(b@.skip(i as int).skip(1) =~= b@.skip(i + 1));
        }
        i = i + 1;
    }
}

/// The first position in a key-sorted entry vector whose key does
/// not stand at-or-before `kc` in the key order.
fn find_pair_pos(entries: &Vec<(String, Byml)>, kc: &Vec<char>) -> (p: usize)
    ensures
        p <= entries@.len(),
        forall|j: int| 0 <= j < p ==> str_le((#[trigger] entries@[j]).0@, kc@),
        p < entries@.len() ==> !str_le(entries@[p as int].0@, kc@),
{
    let n: usize = entries.len();
    let mut p: usize = 0;
    while p < n
        invariant
            n == entries@.len(),
            p <= n,
            forall|j: int| 0 <= j < p ==> str_le((#[trigger] entries@[j]).0@, kc@),
        decreases n - p,
    {
        let ec = chars_of(entries[p].0.as_str());
        if !chars_le(&ec, kc) {
            return p;
        }
        p = p + 1;
    }
    p
}

/// The position at which a key enters an index list: the first
/// index-list position whose entry key does not stand at-or-before
/// `kc` in the key order.
pub open spec fn spec_order_pos(
    entries: Seq<(String, Byml)>,
    order: Seq<usize>,
    kc: Seq<char>,
) -> int
    decreases order.len(),
{
    if order.len() == 0 {
        0
    } else if !str_le(entries[order[0] as int].0@, kc) {
        0
    } else {
        1 + spec_order_pos(entries, order.skip(1), kc)
    }
}

/// The ascending-key order of the first `i` entries, built by
/// inserting each insertion-order position at its key's place.
pub open spec fn spec_sort_indices(entries: Seq<(String, Byml)>, i: nat) -> Seq<usize>
    decreases i,
{
    if i == 0 {
        Seq::empty()
    } else {
        let prev = spec_sort_indices(entries, (i - 1) as nat);
        prev.insert(spec_order_pos(entries, prev, entries[i - 1].0@), (i - 1) as usize)
    }
}

/// The first position in an index list whose entry key does not
/// stand at-or-before `kc` in the key order.
fn find_order_pos(entries: &Vec<(String, Byml)>, order: &Vec<usize>, kc: &Vec<char>) -> (p: usize)
    requires
        forall|k: int| 0 <= k < order@.len() ==> (#[trigger] order@[k]) < entries@.len(),
    ensures
        p <= order@.len(),
        forall|j: int| 0 <= j < p ==> str_le(entries@[(#[trigger] order@[j]) as int].0@, kc@),
        p < order@.len() ==> !str_le(entries@[order@[p as int] as int].0@, kc@),
        p == spec_order_pos(entries@, order@, kc@),
{
    let m: usize = order.len();
    let mut p: usize = 0;
    proof {
        assert(order@.skip(0) =~= order@);
    }
    while p < m
        invariant
            m == order@.len(),
            p <= m,
            forall|k: int| 0 <= k < order@.len() ==> (#[trigger] order@[k]) < entries@.len(),
            forall|j: int| 0 <= j < p ==> str_le(entries@[(#[trigger] order@[j]) as int].0@, kc@),
            spec_order_pos(entries@, order@, kc@) == p + spec_order_pos(
                entries@,
                order@.skip(p as int),
                kc@,
            ),
        decreases m - p,
    {
        let ec = chars_of(entries[order[p]].0.as_str());
        proof {
            assert(order@.skip(p as int)[0] == order@[p as int]);
        }
        if !chars_le(&ec, kc) {
            return p;
        }
        proof {
            assert(order@.skip(p as int).skip(1) =~= order@.skip(p + 1));
        }
        p = p + 1;
    }
    p
}

/// Mapping entries stand in ascending key order.
pub open spec fn pairs_sorted(s: Seq<(String, Byml)>) -> bool {
    forall|k1: int, k2: int|
        0 <= k1 < k2 < s.len() ==> str_le((#[trigger] s[k1]).0@, (#[trigger] s[k2]).0@)
}

/// No two mapping entries share a key.
pub open spec fn keys_distinct(s: Seq<(String, Byml)>) -> bool {
    forall|k1: int, k2: int|
        0 <= k1 < k2 < s.len() ==> (#[trigger] s[k1]).0@ != (#[trigger] s[k2]).0@
}

/// Insert a key-value pair into a key-sorted entry vector, keeping
/// it sorted; a key already present is rejected, so a mapping never
/// holds two entries with one key.
fn insert_pair_sorted(entries: &mut Vec<(String, Byml)>, key: String, value: Byml) -> (r: Result<
    (),
>)
    requires
        pairs_sorted(old(entries)@),
        keys_distinct(old(entries)@),
    ensures
        match r {
            Ok(()) => {
                &&& forall|j: int|
                    0 <= j < old(entries)@.len() ==> (#[trigger] old(entries)@[j]).0@ != key@
                &&& pairs_sorted(final(entries)@)
                &&& keys_distinct(final(entries)@)
                &&& final(entries)@.to_multiset() == old(entries)@.to_multiset().insert(
                    (key, value),
                )
                &&& forall|k: int|
                    0 <= k < final(entries)@.len() ==> ((#[trigger] final(entries)@[k]) == (
                    key,
                    value,
                ) || exists|j: int|
                        0 <= j < old(entries)@.len() && final(entries)@[k] == old(entries)@[j])
            },
            Err(e) => {
                &&& exists|j: int|
                    0 <= j < old(entries)@.len() && (#[trigger] old(entries)@[j]).0@ == key@
                &&& final(entries)@ == old(entries)@
                &&& e matches AampError::InvalidData(_)
            },
        },
{
    let kc = chars_of(key.as_str());
    let n0: usize = entries.len();
    let mut j: usize = 0;
    while j < n0
        invariant
            n0 == entries@.len(),
            j <= n0,
            kc@ == key@,
            entries@ == old(entries)@,
            forall|i: int| 0 <= i < j ==> (#[trigger] entries@[i]).0@ != key@,
        decreases n0 - j,
    {
        if chars_eq_str(&kc, entries[j].0.as_str()) {
            return Err(AampError::InvalidData("duplicate mapping key"));
        }
        j = j + 1;
    }
    let p: usize = find_pair_pos(entries, &kc);
    let ghost oldseq = entries@;
    let ghost pp = p as int;
    proof {
        if pp < oldseq.len() {
            lemma_str_le_total(oldseq[pp].0@, key@);
            assert(str_le(key@, oldseq[pp].0@));
        }
    }
    entries.insert(p, (key, value));
    proof {
        assert(entries@ =~= oldseq.insert(pp, (key, value)));
        assert(entries@[pp] == (key, value));
        assert forall|k1: int, k2: int|
            0 <= k1 < k2 < entries@.len() implies str_le(
            (#[trigger] entries@[k1]).0@,
            (#[trigger] entries@[k2]).0@,
        ) by {
            if k1 < pp && k2 < pp {
                assert(entries@[k1] == oldseq[k1]);
                assert(entries@[k2] == oldseq[k2]);
            } else if k1 < pp && k2 == pp {
                assert(entries@[k1] == oldseq[k1]);
                assert(str_le(entries@[k1].0@, key@));
            } else if k1 < pp && k2 > pp {
                assert(entries@[k1] == oldseq[k1]);
                assert(entries@[k2] == oldseq[k2 - 1]);
            } else if k1 == pp && k2 > pp {
                assert(entries@[k2] == oldseq[k2 - 1]);
                if k2 - 1 > pp {
                    lemma_str_le_trans(key@, oldseq[pp].0@, oldseq[k2 - 1].0@);
                }
            } else if k1 > pp && k2 > pp {
                assert(entries@[k1] == oldseq[k1 - 1]);
                assert(entries@[k2] == oldseq[k2 - 1]);
            }
        }
        assert forall|k1: int, k2: int|
            0 <= k1 < k2 < entries@.len() implies (#[trigger] entries@[k1]).0@ != (
        #[trigger] entries@[k2]).0@ by {
            if k1 < pp && k2 < pp {
                assert(entries@[k1] == oldseq[k1]);
                assert(entries@[k2] == oldseq[k2]);
            } else if k1 < pp && k2 == pp {
                assert(entries@[k1] == oldseq[k1]);
            } else if k1 < pp && k2 > pp {
                assert(entries@[k1] == oldseq[k1]);
                assert(entries@[k2] == oldseq[k2 - 1]);
            } else if k1 == pp && k2 > pp {
                assert(entries@[k2] == oldseq[k2 - 1]);
            } else if k1 > pp && k2 > pp {
                assert(entries@[k1] == oldseq[k1 - 1]);
                assert(entries@[k2] == oldseq[k2 - 1]);
            }
        }
        assert forall|k: int|
            0 <= k < entries@.len() implies ((#[trigger] entries@[k]) == (key, value) || exists|
            j: int,
        | 0 <= j < oldseq.len() && entries@[k] == oldseq[j]) by {
            if k < pp {
                assert(entries@[k] == oldseq[k]);
            } else if k > pp {
                assert(entries@[k] == oldseq[k - 1]);
            }
        }
        let tk = oldseq.take(pp);
        let sk = oldseq.skip(pp);
        assert(entries@ =~= tk.push((key, value)) + sk);
        assert(oldseq =~= tk + sk);
        vstd::seq_lib::lemma_multiset_commutative(tk.push((key, value)), sk);
        vstd::seq_lib::lemma_multiset_commutative(tk, sk);
        tk.to_multiset_ensures();
        assert(tk.push((key, value)).to_multiset() =~= tk.to_multiset().insert((key, value)));
        assert(entries@.to_multiset() =~= oldseq.to_multiset().insert((key, value)));
    }
    Ok(())
}

/// The insertion-order positions of mapping entries, rearranged into
/// ascending key order: a duplicate-free index list, every index in
/// range, keys ascending along it. Every emitted mapping lists its
/// entries in this order.
pub fn sort_indices(entries: &Vec<(String, Byml)>) -> (r: Vec<usize>)
    ensures
        r@.len() == entries@.len(),
        forall|k: int| 0 <= k < r@.len() ==> (#[trigger] r@[k]) < entries@.len(),
        forall|k1: int, k2: int| 0 <= k1 < k2 < r@.len() ==> r@[k1] != r@[k2],
        forall|k1: int, k2: int|
            0 <= k1 < k2 < r@.len() ==> str_le(
                entries@[#[trigger] r@[k1] as int].0@,
                entries@[#[trigger] r@[k2] as int].0@,
            ),
        r@ == spec_sort_indices(entries@, entries@.len() as nat),
{
    let n: usize = entries.len();
    let mut order: Vec<usize> = Vec::new();
    let mut i: usize = 0;
    while i < n
        invariant
            n == entries@.len(),
            i <= n,
            order@.len() == i,
            order@ == spec_sort_indices(entries@, i as nat),
            forall|k: int| 0 <= k < order@.len() ==> (#[trigger] order@[k]) < i,
            forall|k1: int, k2: int| 0 <= k1 < k2 < order@.len() ==> order@[k1] != order@[k2],
            forall|k1: int, k2: int|
                0 <= k1 < k2 < order@.len() ==> str_le(
                    entries@[#[trigger] order@[k1] as int].0@,
                    entries@[#[trigger] order@[k2] as int].0@,
                ),
        decreases n - i,
    {
        let kc = chars_of(entries[i].0.as_str());
        let p: usize = find_order_pos(entries, &order, &kc);
        let ghost oldord = order@;
        let ghost pp = p as int;
        proof {
            if pp < oldord.len() {
                lemma_str_le_total(entries@[oldord[pp] as int].0@, entries@[i as int].0@);
                assert(str_le(entries@[i as int].0@, entries@[oldord[pp] as int].0@));
            }
        }
        order.insert(p, i);
        proof {
            assert(order@ =~= oldord.insert(pp, i as usize));
            assert(order@[pp] == i as usize);
            assert(kc@ == entries@[i as int].0@);
            assert(order@ == spec_sort_indices(entries@, (i + 1) as nat));
            assert forall|k1: int, k2: int|
                0 <= k1 < k2 < order@.len() implies str_le(
                entries@[#[trigger] order@[k1] as int].0@,
                entries@[#[trigger] order@[k2] as int].0@,
            ) by {
                if k1 < pp && k2 < pp {
                    assert(order@[k1] == oldord[k1]);
                    assert(order@[k2] == oldord[k2]);
                } else if k1 < pp && k2 == pp {
                    assert(order@[k1] == oldord[k1]);
                    assert(str_le(entries@[order@[k1] as int].0@, kc@));
                } else if k1 < pp && k2 > pp {
                    assert(order@[k1] == oldord[k1]);
                    assert(order@[k2] == oldord[k2 - 1]);
                } else if k1 == pp && k2 > pp {
                    assert(order@[k2] == oldord[k2 - 1]);
                    if k2 - 1 > pp {
                        lemma_str_le_trans(
                            entries@[i as int].0@,
                            entries@[oldord[pp] as int].0@,
                            entries@[oldord[k2 - 1] as int].0@,
                        );
                    }
                } else if k1 > pp && k2 > pp {
                    assert(order@[k1] == oldord[k1 - 1]);
                    assert(order@[k2] == oldord[k2 - 1]);
                }
            }
        }
        i = i + 1;
    }
    order
}

// ---------------------------------------------------------------
// Tree well-formedness
// ---------------------------------------------------------------
/// Every mapping in the tree stands in ascending key order with no
/// duplicate keys.
pub open spec fn byml_wf(b: Byml) -> bool
    decreases b,
{
    match b {
        Byml::Array(arr) => forall|i: int| 0 <= i < arr@.len() ==> byml_wf(#[trigger] arr@[i]),
        Byml::Hash(h) => pairs_sorted(h@) && keys_distinct(h@) && forall|i: int|
            0 <= i < h@.len() ==> byml_wf((#[trigger] h@[i]).1),
        _ => true,
    }
}

// ---------------------------------------------------------------
// Parsing
// ---------------------------------------------------------------
/// A blank character: space, newline, carriage return, or tab.
pub open spec fn is_blank_char(c: char) -> bool {
    c == ' ' || c == '\n' || c == '\r' || c == '\t'
}

/// A character that ends a plain scalar token.
pub open spec fn is_plain_end(c: char) -> bool {
    c == ',' || c == ':' || c == '[' || c == ']' || c == '{' || c == '}' || c == '\n' || c == '\r'
        || c == '\t' || c == '#' || c == '"' || c == '\''
}

/// A character that ends a tag token.
pub open spec fn is_tag_end(c: char) -> bool {
    c == ' ' || c == '\n' || c == '\r' || c == '\t' || c == ',' || c == '[' || c == ']' || c == '{'
        || c == '}'
}

/// The first non-blank position at or after `pos`.
pub open spec fn spec_skip_ws(v: Seq<char>, pos: int) -> int
    decreases v.len() - pos,
{
    if pos < 0 || pos >= v.len() {
        pos
    } else if is_blank_char(v[pos]) {
        spec_skip_ws(v, pos + 1)
    } else {
        pos
    }
}

/// The end of the plain scalar token starting at `pos`.
pub open spec fn spec_scan_plain(v: Seq<char>, pos: int) -> int
    decreases v.len() - pos,
{
    if pos < 0 || pos >= v.len() {
        pos
    } else if is_plain_end(v[pos]) {
        pos
    } else {
        spec_scan_plain(v, pos + 1)
    }
}

/// The end of the tag token starting at `pos`; the leading `!`
/// always belongs to the tag.
pub open spec fn spec_scan_tag(v: Seq<char>, pos: int) -> int
    decreases v.len() - pos,
{
    if pos < 0 || pos + 1 >= v.len() {
        v.len() as int
    } else if is_tag_end(v[pos + 1]) {
        pos + 1
    } else {
        spec_scan_tag(v, pos + 1)
    }
}

/// The token end after stripping trailing spaces from `[start, end)`.
pub open spec fn spec_trim(v: Seq<char>, start: int, end: int) -> int
    decreases end,
{
    if end <= start {
        end
    } else if 0 <= end - 1 < v.len() && v[end - 1] == ' ' {
        spec_trim(v, start, end - 1)
    } else {
        end
    }
}

/// The position of the first non-blank character at or after `pos`.
fn skip_ws(v: &Vec<char>, pos: usize) -> (r: usize)
    requires
        pos <= v@.len(),
    ensures
        pos <= r <= v@.len(),
        forall|j: int| pos <= j < r ==> is_blank_char(#[trigger] v@[j]),
        r < v@.len() ==> !is_blank_char(v@[r as int]),
        r == spec_skip_ws(v@, pos as int),
{
    let n: usize = v.len();
    let mut i: usize = pos;
    while i < n
        invariant
            pos <= i <= n,
            n == v@.len(),
            forall|j: int| pos <= j < i ==> is_blank_char(#[trigger] v@[j]),
            spec_skip_ws(v@, pos as int) == spec_skip_ws(v@, i as int),
        decreases n - i,
    {
        let c: char = v[i];
        if c == ' ' || c == '\n' || c == '\r' || c == '\t' {
            i = i + 1;
        } else {
            return i;
        }
    }
    i
}

/// The end of a plain scalar token starting at `pos`: the first
/// structural character at or after it.
fn scan_plain(v: &Vec<char>, pos: usize) -> (r: usize)
    requires
        pos <= v@.len(),
    ensures
        pos <= r <= v@.len(),
        r == spec_scan_plain(v@, pos as int),
{
    let n: usize = v.len();
    let mut i: usize = pos;
    while i < n
        invariant
            pos <= i <= n,
            n == v@.len(),
            spec_scan_plain(v@, pos as int) == spec_scan_plain(v@, i as int),
        decreases n - i,
    {
        let c: char = v[i];
        if c == ',' || c == ':' || c == '[' || c == ']' || c == '{' || c == '}' || c == '\n' || c
            == '\r' || c == '\t' || c == '#' || c == '"' || c == '\'' {
            return i;
        }
        i = i + 1;
    }
    i
}

/// The end of a tag token starting at `pos`; the leading `!` always
/// belongs to the tag.
fn scan_tag(v: &Vec<char>, pos: usize) -> (r: usize)
    requires
        pos < v@.len(),
    ensures
        pos < r <= v@.len(),
        r == spec_scan_tag(v@, pos as int),
{
    let n: usize = v.len();
    let mut i: usize = pos + 1;
    while i < n
        invariant
            pos < i <= n,
            n == v@.len(),
            spec_scan_tag(v@, pos as int) == spec_scan_tag(v@, i - 1),
        decreases n - i,
    {
        let c: char = v[i];
        if c == ' ' || c == '\n' || c == '\r' || c == '\t' || c == ',' || c == '[' || c == ']' || c
            == '{' || c == '}' {
            return i;
        }
        i = i + 1;
    }
    i
}

/// Strip trailing spaces from a token span.
fn trim_trailing(v: &Vec<char>, start: usize, end: usize) -> (r: usize)
    requires
        start <= end <= v@.len(),
    ensures
        start <= r <= end,
        r == spec_trim(v@, start as int, end as int),
{
    let mut e: usize = end;
    while e > start
        invariant
            start <= e <= end <= v@.len(),
            spec_trim(v@, start as int, end as int) == spec_trim(v@, start as int, e as int),
        decreases e,
    {
        if v[e - 1] == ' ' {
            e = e - 1;
        } else {
            return e;
        }
    }
    e
}

/// The text of a token span, as an owned string.
fn token_string(v: &Vec<char>, start: usize, end: usize) -> (r: String)
    requires
        start <= end <= v@.len(),
    ensures
        r@ == v@.subrange(start as int, end as int),
{
    let mut out: Vec<char> = Vec::new();
    let mut i: usize = start;
    while i < end
        invariant
            start <= i <= end <= v@.len(),
            out@ == v@.subrange(start as int, i as int),
        decreases end - i,
    {
        out.push(v[i]);
        proof {
            assert(out@ =~= v@.subrange(start as int, i + 1));
        }
        i = i + 1;
    }
    string_from_chars(&out)
}

/// The unescaped content and end position of a double-quoted string
/// read from position `i` with `acc` already unescaped, or `None`
/// when the text ends before the closing quote or an escape is not
/// one the bridge writes.
pub open spec fn spec_dquoted(v: Seq<char>, i: int, acc: Seq<char>) -> Option<(Seq<char>, int)>
    decreases v.len() - i,
{
    if i < 0 || i >= v.len() {
        None
    } else if v[i] == '"' {
        Some((acc, i + 1))
    } else if v[i] == '\\' {
        if i + 1 >= v.len() {
            None
        } else if v[i + 1] == 'n' {
            spec_dquoted(v, i + 2, acc.push('\n'))
        } else if v[i + 1] == 't' {
            spec_dquoted(v, i + 2, acc.push('\t'))
        } else if v[i + 1] == 'r' {
            spec_dquoted(v, i + 2, acc.push('\r'))
        } else if v[i + 1] == '\\' {
            spec_dquoted(v, i + 2, acc.push('\\'))
        } else if v[i + 1] == '"' {
            spec_dquoted(v, i + 2, acc.push('"'))
        } else if v[i + 1] == '\'' {
            spec_dquoted(v, i + 2, acc.push('\''))
        } else if v[i + 1] == '0' {
            spec_dquoted(v, i + 2, acc.push('\0'))
        } else {
            None
        }
    } else {
        spec_dquoted(v, i + 1, acc.push(v[i]))
    }
}

/// The content and end position of a single-quoted string read from
/// position `i` with `acc` already read; a doubled quote stands for
/// one quote.
pub open spec fn spec_squoted(v: Seq<char>, i: int, acc: Seq<char>) -> Option<(Seq<char>, int)>
    decreases v.len() - i,
{
    if i < 0 || i >= v.len() {
        None
    } else if v[i] == '\'' {
        if i + 1 < v.len() && v[i + 1] == '\'' {
            spec_squoted(v, i + 2, acc.push('\''))
        } else {
            Some((acc, i + 1))
        }
    } else {
        spec_squoted(v, i + 1, acc.push(v[i]))
    }
}

/// Read a double-quoted string starting at `pos`, undoing the
/// bridge's escapes: exactly [`spec_dquoted`].
fn parse_dquoted(v: &Vec<char>, pos: usize) -> (r: Result<(String, usize)>)
    requires
        pos < v@.len(),
    ensures
        r matches Ok(p) ==> pos < p.1 <= v@.len() && Some((p.0@, p.1 as int)) == spec_dquoted(
            v@,
            pos + 1,
            Seq::empty(),
        ),
        r is Err ==> spec_dquoted(v@, pos + 1, Seq::empty()) is None,
{
    let n: usize = v.len();
    let mut out: Vec<char> = Vec::new();
    let mut i: usize = pos + 1;
    while i < n
        invariant
            pos < i <= n,
            n == v@.len(),
            spec_dquoted(v@, pos + 1, Seq::empty()) == spec_dquoted(v@, i as int, out@),
        decreases n - i,
    {
        let c: char = v[i];
        if c == '"' {
            return Ok((string_from_chars(&out), i + 1));
        }
        if c == '\\' {
            if i + 1 >= n {
                return Err(AampError::InvalidData("unterminated escape"));
            }
            let e: char = v[i + 1];
            let d: char = if e == 'n' {
                '\n'
            } else if e == 't' {
                '\t'
            } else if e == 'r' {
                '\r'
            } else if e == '\\' {
                '\\'
            } else if e == '"' {
                '"'
            } else if e == '\'' {
                '\''
            } else if e == '0' {
                '\0'
            } else {
                return Err(AampError::InvalidData("unsupported escape"));
            };
            out.push(d);
            i = i + 2;
        } else {
            out.push(c);
            i = i + 1;
        }
    }
    Err(AampError::InvalidData("unterminated double-quoted string"))
}

/// Read a single-quoted string starting at `pos`; a doubled quote
/// stands for one quote: exactly [`spec_squoted`].
fn parse_squoted(v: &Vec<char>, pos: usize) -> (r: Result<(String, usize)>)
    requires
        pos < v@.len(),
    ensures
        r matches Ok(p) ==> pos < p.1 <= v@.len() && Some((p.0@, p.1 as int)) == spec_squoted(
            v@,
            pos + 1,
            Seq::empty(),
        ),
        r is Err ==> spec_squoted(v@, pos + 1, Seq::empty()) is None,
{
    let n: usize = v.len();
    let mut out: Vec<char> = Vec::new();
    let mut i: usize = pos + 1;
    while i < n
        invariant
            pos < i <= n,
            n == v@.len(),
            spec_squoted(v@, pos + 1, Seq::empty()) == spec_squoted(v@, i as int, out@),
        decreases n - i,
    {
        let c: char = v[i];
        if c == '\'' {
            if i + 1 < n && v[i + 1] == '\'' {
                out.push('\'');
                i = i + 2;
            } else {
                return Ok((string_from_chars(&out), i + 1));
            }
        } else {
            out.push(c);
            i = i + 1;
        }
    }
    Err(AampError::InvalidData("unterminated single-quoted string"))
}

/// The coarse type a tag asks for, as a value: the meaning of
/// [`recognize_tag`].
pub open spec fn spec_tag_type(tag: Seq<char>) -> Option<TagBasedType> {
    if tag == "!f64"@ {
        Some(TagBasedType::Float)
    } else if tag == "!u"@ || tag == "!l"@ || tag == "!ul"@ {
        Some(TagBasedType::Int)
    } else if tag == "tag:yaml.org,2002:binary"@ || tag == "!!binary"@ {
        Some(TagBasedType::Str)
    } else {
        None
    }
}

/// The low 32 bits of a signed 64-bit value, as the unsigned kind.
pub open spec fn u32_of_i64_bits(i: i64) -> u32 {
    (i & 0xFFFFFFFFi64) as u32
}

/// A signed 64-bit value reinterpreted as the unsigned kind.
pub open spec fn u64_of_i64_bits(i: i64) -> u64 {
    if i >= 0 {
        i as u64
    } else {
        ((i as int) + 0x10000000000000000) as u64
    }
}

/// Whether a tag, token, and quoting yield a node: the token must
/// lex under the tag's coarse type, and a binary-tagged token must
/// decode as base64.
pub open spec fn scalar_node_ok(tag: Seq<char>, token: Seq<char>, quoted: bool) -> bool {
    match lex_scalar(spec_tag_type(tag), token, quoted) {
        None => false,
        Some(sc) => match sc {
            SpecScalar::Str(s) => !(tag == "tag:yaml.org,2002:binary"@ || tag == "!!binary"@)
                || base64_bytes_of(s) is Some,
            _ => true,
        },
    }
}

/// The node a tag, token, and quoting yield: `!u`/`!ul` wrap the
/// lexed integer into the unsigned kinds, `!l` keeps 64 bits, an
/// untagged integer escalates to 64 bits only on overflow; `!f64`
/// keeps the 64-bit float, any other float narrows to the 32-bit
/// parse of the token (an overflowing narrow saturates to the signed
/// infinity); a binary tag decodes base64; anything else is text.
pub open spec fn scalar_node_rel(tag: Seq<char>, token: Seq<char>, quoted: bool, b: Byml) -> bool {
    match lex_scalar(spec_tag_type(tag), token, quoted) {
        None => false,
        Some(sc) => match sc {
            SpecScalar::Null => b == Byml::Null,
            SpecScalar::Bool(x) => b == Byml::Bool(x),
            SpecScalar::Int(i) => if tag == "!u"@ {
                b == Byml::U32(u32_of_i64_bits(i))
            } else if tag == "!ul"@ {
                b == Byml::U64(u64_of_i64_bits(i))
            } else if tag == "!l"@ {
                b == Byml::I64(i)
            } else if -2147483648 <= i <= 2147483647 {
                b == Byml::I32(i as i32)
            } else {
                b == Byml::I64(i)
            },
            SpecScalar::Float(f) => if tag == "!f64"@ {
                b == Byml::Double(f)
            } else {
                match f32_bits_of_text(token) {
                    Some(b32) => b == Byml::Float(b32),
                    None => b == Byml::Float(
                        if f >= 0x8000000000000000 {
                            0xFF800000u32
                        } else {
                            0x7F800000u32
                        },
                    ),
                }
            },
            SpecScalar::Str(s) => if tag == "tag:yaml.org,2002:binary"@ || tag == "!!binary"@ {
                b matches Byml::BinaryData(d) && base64_bytes_of(s) == Some(d@)
            } else {
                b matches Byml::String(st) && st@ == s
            },
        },
    }
}

/// Turn a lexed scalar and its tag into a node, preserving widths:
/// exactly the relation [`scalar_node_rel`].
fn scalar_node(tag: &str, token: &str, quoted: bool) -> (r: Result<Byml>)
    ensures
        r is Ok <==> scalar_node_ok(tag@, token@, quoted),
        r matches Ok(b) ==> scalar_node_rel(tag@, token@, quoted, b) && byml_wf(b),
{
    let tag_type = recognize_tag(tag);
    let sc = match parse_scalar(tag_type, token, quoted) {
        Ok(sc) => sc,
        Err(e) => {
            return Err(e);
        },
    };
    match sc {
        Scalar::Null => Ok(Byml::Null),
        Scalar::Bool(b) => Ok(Byml::Bool(b)),
        Scalar::Int(i) => {
            if str_eq(tag, "!u") {
                proof {
                    assert(0 <= (i & 0xFFFFFFFFi64) < 0x100000000i64) by (bit_vector);
                }
                Ok(Byml::U32((i & 0xFFFFFFFFi64) as u32))
            } else if str_eq(tag, "!ul") {
                if i >= 0 {
                    Ok(Byml::U64(i as u64))
                } else {
                    let wide: i128 = (i as i128) + 0x10000000000000000i128;
                    Ok(Byml::U64(wide as u64))
                }
            } else if str_eq(tag, "!l") {
                Ok(Byml::I64(i))
            } else if i >= -2147483648i64 && i <= 2147483647i64 {
                Ok(Byml::I32(i as i32))
            } else {
                Ok(Byml::I64(i))
            }
        },
        Scalar::Float(f) => {
            if str_eq(tag, "!f64") {
                Ok(Byml::Double(f))
            } else {
                match parse_f32_bits(token) {
                    Some(b) => Ok(Byml::Float(b)),
                    None => {
                        let narrow: u32 = if f >= 0x8000000000000000 {
                            0xFF800000u32
                        } else {
                            0x7F800000u32
                        };
                        Ok(Byml::Float(narrow))
                    },
                }
            }
        },
        Scalar::String(s) => {
            if is_binary_tag(tag) {
                match base64_decode(s.as_str()) {
                    Some(d) => Ok(Byml::BinaryData(d)),
                    None => Err(AampError::InvalidData("invalid base64 data")),
                }
            } else {
                Ok(Byml::String(s))
            }
        },
    }
}

/// Parse one value at `pos`: a flow sequence, a flow mapping, a
/// quoted string, or a possibly tagged plain scalar. A bare or
/// tagged plain scalar is bound exactly to [`scalar_node_rel`] over
/// the scanned token.
fn parse_value(v: &Vec<char>, pos: usize) -> (r: Result<(Byml, usize)>)
    requires
        pos <= v@.len(),
    ensures
        r matches Ok(p) ==> pos < p.1 <= v@.len() && byml_wf(p.0),
        ({
            let st = spec_skip_ws(v@, pos as int);
            (st < v@.len() && !(v@[st] == '[' || v@[st] == '{' || v@[st] == '"' || v@[st] == '\''
                || v@[st] == '!')) ==> {
                let e = spec_scan_plain(v@, st);
                let e2 = spec_trim(v@, st, e);
                &&& (r is Ok <==> e2 > st && scalar_node_ok(""@, v@.subrange(st, e2), false))
                &&& (r matches Ok(p) ==> scalar_node_rel(""@, v@.subrange(st, e2), false, p.0)
                    && p.1 == e)
            }
        }),
        ({
            let st = spec_skip_ws(v@, pos as int);
            (st < v@.len() && v@[st] == '!') ==> {
                let te = spec_scan_tag(v@, st);
                let tg = v@.subrange(st, te);
                let ws = spec_skip_ws(v@, te);
                (ws >= v@.len() || v@[ws] != '"') ==> {
                    let e = spec_scan_plain(v@, ws);
                    let e2 = spec_trim(v@, ws, e);
                    &&& (r is Ok <==> scalar_node_ok(tg, v@.subrange(ws, e2), false))
                    &&& (r matches Ok(p) ==> scalar_node_rel(tg, v@.subrange(ws, e2), false, p.0)
                        && p.1 == e)
                }
            }
        }),
        ({
            let st = spec_skip_ws(v@, pos as int);
            (st < v@.len() && v@[st] == '"') ==> {
                &&& (r is Ok <==> spec_dquoted(v@, st + 1, Seq::empty()) is Some)
                &&& (r matches Ok(p) ==> (spec_dquoted(v@, st + 1, Seq::empty()) matches Some(q)
                    && p.0 matches Byml::String(s) && s@ == q.0 && p.1 == q.1))
            }
        }),
        ({
            let st = spec_skip_ws(v@, pos as int);
            (st < v@.len() && v@[st] == '\'') ==> {
                &&& (r is Ok <==> spec_squoted(v@, st + 1, Seq::empty()) is Some)
                &&& (r matches Ok(p) ==> (spec_squoted(v@, st + 1, Seq::empty()) matches Some(q)
                    && p.0 matches Byml::String(s) && s@ == q.0 && p.1 == q.1))
            }
        }),
        ({
            let st = spec_skip_ws(v@, pos as int);
            (st < v@.len() && v@[st] == '[' && spec_skip_ws(v@, st + 1) < v@.len() && v@[
                spec_skip_ws(v@, st + 1)] == ']') ==> (r matches Ok(p) && (p.0
                matches Byml::Array(a) && a@.len() == 0) && p.1 == spec_skip_ws(v@, st + 1) + 1)
        }),
        ({
            let st = spec_skip_ws(v@, pos as int);
            (st < v@.len() && v@[st] == '{' && spec_skip_ws(v@, st + 1) < v@.len() && v@[
                spec_skip_ws(v@, st + 1)] == '}') ==> (r matches Ok(p) && (p.0
                matches Byml::Hash(h) && h@.len() == 0) && p.1 == spec_skip_ws(v@, st + 1) + 1)
        }),
    decreases v@.len() - pos,
{
    let n: usize = v.len();
    let start: usize = skip_ws(v, pos);
    if start >= n {
        return Err(AampError::InvalidData("unexpected end of document"));
    }
    let c: char = v[start];
    if c == '[' {
        let mut items: Vec<Byml> = Vec::new();
        let mut cur: usize = start + 1;
        loop
            invariant
                pos <= start < cur <= n,
                n == v@.len(),
                start == spec_skip_ws(v@, pos as int) && v@[start as int] == '[',
                cur == start + 1 ==> items@.len() == 0,
                cur > start + 1 ==> !(spec_skip_ws(v@, start + 1) < v@.len() && v@[spec_skip_ws(
                    v@,
                    start + 1,
                )] == ']'),
                forall|k: int| 0 <= k < items@.len() ==> byml_wf(#[trigger] items@[k]),
            decreases n - cur,
        {
            let ws: usize = skip_ws(v, cur);
            if ws >= n {
                return Err(AampError::InvalidData("unclosed sequence"));
            }
            if v[ws] == ']' {
                return Ok((Byml::Array(items), ws + 1));
            }
            let parsed = match parse_value(v, ws) {
                Ok(x) => x,
                Err(e) => {
                    return Err(e);
                },
            };
            let item = parsed.0;
            let p2: usize = parsed.1;
            items.push(item);
            let ws2: usize = skip_ws(v, p2);
            if ws2 >= n {
                return Err(AampError::InvalidData("unclosed sequence"));
            }
            if v[ws2] == ',' {
                cur = ws2 + 1;
            } else if v[ws2] == ']' {
                return Ok((Byml::Array(items), ws2 + 1));
            } else {
                return Err(AampError::InvalidData("expected a comma or a closing bracket"));
            }
        }
    } else if c == '{' {
        let mut entries: Vec<(String, Byml)> = Vec::new();
        let mut cur: usize = start + 1;
        loop
            invariant
                pos <= start < cur <= n,
                n == v@.len(),
                start == spec_skip_ws(v@, pos as int) && v@[start as int] == '{',
                cur == start + 1 ==> entries@.len() == 0,
                cur > start + 1 ==> !(spec_skip_ws(v@, start + 1) < v@.len() && v@[spec_skip_ws(
                    v@,
                    start + 1,
                )] == '}'),
                pairs_sorted(entries@),
                keys_distinct(entries@),
                forall|k: int| 0 <= k < entries@.len() ==> byml_wf((#[trigger] entries@[k]).1),
            decreases n - cur,
        {
            let ws: usize = skip_ws(v, cur);
            if ws >= n {
                return Err(AampError::InvalidData("unclosed mapping"));
            }
            if v[ws] == '}' {
                return Ok((Byml::Hash(entries), ws + 1));
            }
            let kc: char = v[ws];
            let key: String;
            let kp: usize;
            if kc == '"' {
                let parsed = match parse_dquoted(v, ws) {
                    Ok(x) => x,
                    Err(e) => {
                        return Err(e);
                    },
                };
                key = parsed.0;
                kp = parsed.1;
            } else if kc == '\'' {
                let parsed = match parse_squoted(v, ws) {
                    Ok(x) => x,
                    Err(e) => {
                        return Err(e);
                    },
                };
                key = parsed.0;
                kp = parsed.1;
            } else {
                let e: usize = scan_plain(v, ws);
                let e2: usize = trim_trailing(v, ws, e);
                if e2 <= ws {
                    return Err(AampError::InvalidData("empty mapping key"));
                }
                key = token_string(v, ws, e2);
                kp = e;
            }
            let ws2: usize = skip_ws(v, kp);
            if ws2 >= n {
                return Err(AampError::InvalidData("unclosed mapping"));
            }
            if v[ws2] != ':' {
                return Err(AampError::InvalidData("expected a colon after a mapping key"));
            }
            let parsed = match parse_value(v, ws2 + 1) {
                Ok(x) => x,
                Err(e) => {
                    return Err(e);
                },
            };
            let value = parsed.0;
            let vp: usize = parsed.1;
            match insert_pair_sorted(&mut entries, key, value) {
                Ok(()) => {},
                Err(e) => {
                    return Err(e);
                },
            }
            let ws3: usize = skip_ws(v, vp);
            if ws3 >= n {
                return Err(AampError::InvalidData("unclosed mapping"));
            }
            if v[ws3] == ',' {
                cur = ws3 + 1;
            } else if v[ws3] == '}' {
                return Ok((Byml::Hash(entries), ws3 + 1));
            } else {
                return Err(AampError::InvalidData("expected a comma or a closing brace"));
            }
        }
    } else if c == '"' {
        let parsed = match parse_dquoted(v, start) {
            Ok(x) => x,
            Err(e) => {
                return Err(e);
            },
        };
        Ok((Byml::String(parsed.0), parsed.1))
    } else if c == '\'' {
        let parsed = match parse_squoted(v, start) {
            Ok(x) => x,
            Err(e) => {
                return Err(e);
            },
        };
        Ok((Byml::String(parsed.0), parsed.1))
    } else if c == '!' {
        let te: usize = scan_tag(v, start);
        let tag: String = token_string(v, start, te);
        let ws: usize = skip_ws(v, te);
        if ws < n && v[ws] == '"' {
            let parsed = match parse_dquoted(v, ws) {
                Ok(x) => x,
                Err(e) => {
                    return Err(e);
                },
            };
            let node = match scalar_node(tag.as_str(), parsed.0.as_str(), true) {
                Ok(x) => x,
                Err(e) => {
                    return Err(e);
                },
            };
            Ok((node, parsed.1))
        } else {
            let e: usize = scan_plain(v, ws);
            let e2: usize = trim_trailing(v, ws, e);
            let token: String = token_string(v, ws, e2);
            let node = match scalar_node(tag.as_str(), token.as_str(), false) {
                Ok(x) => x,
                Err(e) => {
                    return Err(e);
                },
            };
            Ok((node, e))
        }
    } else {
        let e: usize = scan_plain(v, start);
        let e2: usize = trim_trailing(v, start, e);
        if e2 <= start {
            return Err(AampError::InvalidData("empty scalar"));
        }
        let token: String = token_string(v, start, e2);
        let node = match scalar_node("", token.as_str(), false) {
            Ok(x) => x,
            Err(e) => {
                return Err(e);
            },
        };
        Ok((node, e))
    }
}


// ---------------------------------------------------------------
// The emitted text
// ---------------------------------------------------------------
/// The escape of one character inside a double-quoted string.
pub open spec fn esc_char(c: char) -> Seq<char> {
    if c == '\\' {
        seq!['\\', '\\']
    } else if c == '"' {
        seq!['\\', '"']
    } else if c == '\n' {
        seq!['\\', 'n']
    } else if c == '\t' {
        seq!['\\', 't']
    } else if c == '\r' {
        seq!['\\', 'r']
    } else {
        seq![c]
    }
}

/// A string body with its double-quote escapes applied.
pub open spec fn escaped_text(s: Seq<char>) -> Seq<char>
    decreases s.len(),
{
    if s.len() == 0 {
        Seq::empty()
    } else {
        escaped_text(s.drop_last()) + esc_char(s.last())
    }
}

/// One character inside a single-quoted key; a quote is doubled.
pub open spec fn squote_char(c: char) -> Seq<char> {
    if c == '\'' {
        seq!['\'', '\'']
    } else {
        seq![c]
    }
}

/// A key body with its single-quote doubling applied.
pub open spec fn squoted_text(s: Seq<char>) -> Seq<char>
    decreases s.len(),
{
    if s.len() == 0 {
        Seq::empty()
    } else {
        squoted_text(s.drop_last()) + squote_char(s.last())
    }
}

/// The text of a string value: bare, or double-quoted and escaped.
pub open spec fn string_scalar_text(s: Seq<char>) -> Seq<char> {
    if spec_string_needs_quotes(s) {
        seq!['"'] + escaped_text(s) + seq!['"']
    } else {
        s
    }
}

/// The text of a mapping key: bare, or single-quoted.
pub open spec fn key_scalar_text(s: Seq<char>) -> Seq<char> {
    if spec_string_needs_quotes(s) {
        seq!['\''] + squoted_text(s) + seq!['\'']
    } else {
        s
    }
}

/// Two spaces per indent level.
pub open spec fn indent_text(ind: nat) -> Seq<char> {
    Seq::new(2 * ind, |i: int| ' ')
}

/// What stands before the `k`-th child of a container.
pub open spec fn sep_text(k: int, inline: bool, ind: nat) -> Seq<char> {
    if inline {
        if k == 0 {
            Seq::empty()
        } else {
            seq![',', ' ']
        }
    } else {
        if k == 0 {
            seq!['\n'] + indent_text(ind)
        } else {
            seq![',', '\n'] + indent_text(ind)
        }
    }
}

/// What stands before a container's closing bracket.
pub open spec fn close_text(n: int, inline: bool, ind: nat) -> Seq<char> {
    if !inline && n > 0 {
        seq!['\n'] + indent_text(ind)
    } else {
        Seq::empty()
    }
}

/// The indent level below `ind`.
pub open spec fn ind_next(ind: nat) -> nat {
    if ind < 0xFFFF {
        (ind + 1) as nat
    } else {
        ind
    }
}

/// The emitted text of a node at an indent level: `null`, booleans,
/// decimal and tagged-hex integers, float decimals, tagged base64,
/// quoted-or-bare strings, and bracketed containers whose mappings
/// are written in ascending key order.
pub open spec fn text_of(b: Byml, ind: nat) -> Seq<char>
    decreases b, 0int,
{
    match b {
        Byml::Null => "null"@,
        Byml::Bool(x) => if x {
            "true"@
        } else {
            "false"@
        },
        Byml::I32(x) => int_text(x as i64),
        Byml::I64(x) => "!l "@ + int_text(x),
        Byml::U32(x) => "!u "@ + hex_int_text(x as nat),
        Byml::U64(x) => "!ul "@ + hex_int_text(x as nat),
        Byml::Float(x) => f32_dec_of(x),
        Byml::Double(x) => "!f64 "@ + f64_dec_of(x),
        Byml::String(s) => string_scalar_text(s@),
        Byml::BinaryData(d) => "!!binary "@ + base64_text_of(d@),
        Byml::Array(arr) => seq!['['] + array_items_text(
            arr@,
            arr@.len() as int,
            ind_next(ind),
            spec_should_use_inline(&b),
        ) + close_text(arr@.len() as int, spec_should_use_inline(&b), ind) + seq![']'],
        Byml::Hash(h) => seq!['{'] + hash_items_text(
            h@,
            spec_sort_indices(h@, h@.len() as nat),
            h@.len() as int,
            ind_next(ind),
            spec_should_use_inline(&b),
        ) + close_text(h@.len() as int, spec_should_use_inline(&b), ind) + seq!['}'],
    }
}

/// The text of the first `k` children of a sequence, separators
/// included.
pub open spec fn array_items_text(arr: Seq<Byml>, k: int, ind: nat, inline: bool) -> Seq<char>
    decreases arr, k,
{
    if k <= 0 || k > arr.len() {
        Seq::empty()
    } else {
        array_items_text(arr, k - 1, ind, inline) + sep_text(k - 1, inline, ind) + text_of(
            arr[k - 1],
            ind,
        )
    }
}

/// The text of the first `k` entries of a mapping taken in the given
/// key order, separators included.
pub open spec fn hash_items_text(
    h: Seq<(String, Byml)>,
    order: Seq<usize>,
    k: int,
    ind: nat,
    inline: bool,
) -> Seq<char>
    decreases h, k,
    via hash_items_text_decreases
{
    if k <= 0 || k > order.len() || order[k - 1] as int >= h.len() {
        Seq::empty()
    } else {
        hash_items_text(h, order, k - 1, ind, inline) + sep_text(k - 1, inline, ind)
            + key_scalar_text(h[order[k - 1] as int].0@) + ": "@ + text_of(
            h[order[k - 1] as int].1,
            ind,
        )
    }
}

#[via_fn]
proof fn hash_items_text_decreases(
    h: Seq<(String, Byml)>,
    order: Seq<usize>,
    k: int,
    ind: nat,
    inline: bool,
) {
    if !(k <= 0 || k > order.len() || order[k - 1] as int >= h.len()) {
        let j = order[k - 1] as int;
        assert(decreases_to!(h => h[j]));
        assert(decreases_to!(h[j] => h[j].1));
    }
}

// ---------------------------------------------------------------
// Emission
// ---------------------------------------------------------------
/// Append the characters of a string slice.
fn push_str_chars(out: &mut Vec<char>, s: &str)
    ensures
        final(out)@ == old(out)@ + s@,
{
    let n: usize = s.unicode_len();
    let mut i: usize = 0;
    while i < n
        invariant
            n == s@.len(),
            i <= n,
            out@ == old(out)@ + s@.take(i as int),
        decreases n - i,
    {
        out.push(s.get_char(i));
        proof {
            assert(old(out)@ + s@.take(i + 1) =~= (old(out)@ + s@.take(i as int)).push(
                s@[i as int],
            ));
        }
        i = i + 1;
    }
    proof {
        assert(s@.take(n as int) =~= s@);
    }
}

/// Append two spaces per indent level.
fn push_indent(out: &mut Vec<char>, ind: usize)
    ensures
        final(out)@ == old(out)@ + indent_text(ind as nat),
{
    let mut i: usize = 0;
    proof {
        assert(out@ =~= old(out)@ + indent_text(0));
    }
    while i < ind
        invariant
            i <= ind,
            out@ == old(out)@ + indent_text(i as nat),
        decreases ind - i,
    {
        out.push(' ');
        out.push(' ');
        proof {
            assert(out@ =~= old(out)@ + indent_text((i + 1) as nat));
        }
        i = i + 1;
    }
}

/// Append a string value, double-quoting and escaping it when it
/// would not survive as a plain scalar.
fn push_string_scalar(out: &mut Vec<char>, s: &str)
    ensures
        final(out)@ == old(out)@ + string_scalar_text(s@),
{
    if !string_needs_quotes(s) {
        push_str_chars(out, s);
        return ;
    }
    let v = chars_of(s);
    let n: usize = v.len();
    out.push('"');
    proof {
        assert(v@.take(0) =~= Seq::<char>::empty());
        assert(out@ =~= old(out)@ + seq!['"'] + escaped_text(v@.take(0)));
    }
    let mut i: usize = 0;
    while i < n
        invariant
            i <= n,
            n == v@.len(),
            v@ == s@,
            spec_string_needs_quotes(s@),
            out@ == old(out)@ + seq!['"'] + escaped_text(v@.take(i as int)),
        decreases n - i,
    {
        let c: char = v[i];
        proof {
            assert(v@.take(i + 1).drop_last() =~= v@.take(i as int));
            assert(v@.take(i + 1).last() == v@[i as int]);
        }
        if c == '\\' {
            out.push('\\');
            out.push('\\');
        } else if c == '"' {
            out.push('\\');
            out.push('"');
        } else if c == '\n' {
            out.push('\\');
            out.push('n');
        } else if c == '\t' {
            out.push('\\');
            out.push('t');
        } else if c == '\r' {
            out.push('\\');
            out.push('r');
        } else {
            out.push(c);
        }
        proof {
            assert(out@ =~= old(out)@ + seq!['"'] + escaped_text(v@.take(i + 1)));
        }
        i = i + 1;
    }
    out.push('"');
    proof {
        assert(v@.take(n as int) =~= v@);
        assert(out@ =~= old(out)@ + string_scalar_text(s@));
    }
}

/// Append a mapping key, single-quoting it when it would not
/// survive as a plain scalar.
fn push_key(out: &mut Vec<char>, s: &str)
    ensures
        final(out)@ == old(out)@ + key_scalar_text(s@),
{
    if !string_needs_quotes(s) {
        push_str_chars(out, s);
        return ;
    }
    let v = chars_of(s);
    let n: usize = v.len();
    out.push('\'');
    proof {
        assert(v@.take(0) =~= Seq::<char>::empty());
        assert(out@ =~= old(out)@ + seq!['\''] + squoted_text(v@.take(0)));
    }
    let mut i: usize = 0;
    while i < n
        invariant
            i <= n,
            n == v@.len(),
            v@ == s@,
            spec_string_needs_quotes(s@),
            out@ == old(out)@ + seq!['\''] + squoted_text(v@.take(i as int)),
        decreases n - i,
    {
        let c: char = v[i];
        proof {
            assert(v@.take(i + 1).drop_last() =~= v@.take(i as int));
            assert(v@.take(i + 1).last() == v@[i as int]);
        }
        if c == '\'' {
            out.push('\'');
            out.push('\'');
        } else {
            out.push(c);
        }
        proof {
            assert(out@ =~= old(out)@ + seq!['\''] + squoted_text(v@.take(i + 1)));
        }
        i = i + 1;
    }
    out.push('\'');
    proof {
        assert(v@.take(n as int) =~= v@);
        assert(out@ =~= old(out)@ + key_scalar_text(s@));
    }
}

/// Append the text of a node at an indent level: exactly
/// [`text_of`]. Containers of scalars stay on one line; larger
/// containers take one element per line; mappings are written
/// key-sorted.
#[verifier::rlimit(100)]
fn emit_node(b: &Byml, ind: usize, out: &mut Vec<char>)
    ensures
        final(out)@ == old(out)@ + text_of(*b, ind as nat),
    decreases *b,
{
    let ind2: usize = if ind < 0xFFFF {
        ind + 1
    } else {
        ind
    };
    proof {
        assert(ind2 as nat == ind_next(ind as nat));
    }
    match b {
        Byml::Null => {
            push_str_chars(out, "null");
            proof {
                assert(out@ =~= old(out)@ + text_of(*b, ind as nat));
            }
        },
        Byml::Bool(x) => {
            push_str_chars(
                out,
                if *x {
                    "true"
                } else {
                    "false"
                },
            );
            proof {
                assert(out@ =~= old(out)@ + text_of(*b, ind as nat));
            }
        },
        Byml::I32(x) => {
            let s = i64_text(*x as i64);
            push_str_chars(out, s.as_str());
            proof {
                assert(out@ =~= old(out)@ + text_of(*b, ind as nat));
            }
        },
        Byml::I64(x) => {
            push_str_chars(out, "!l ");
            let s = i64_text(*x);
            push_str_chars(out, s.as_str());
            proof {
                assert(out@ =~= old(out)@ + text_of(*b, ind as nat));
            }
        },
        Byml::U32(x) => {
            push_str_chars(out, "!u ");
            let s = u64_hex_text(*x as u64);
            push_str_chars(out, s.as_str());
            proof {
                assert(out@ =~= old(out)@ + text_of(*b, ind as nat));
            }
        },
        Byml::U64(x) => {
            push_str_chars(out, "!ul ");
            let s = u64_hex_text(*x);
            push_str_chars(out, s.as_str());
            proof {
                assert(out@ =~= old(out)@ + text_of(*b, ind as nat));
            }
        },
        Byml::Float(x) => {
            let s = f32_text(*x);
            push_str_chars(out, s.as_str());
            proof {
                assert(out@ =~= old(out)@ + text_of(*b, ind as nat));
            }
        },
        Byml::Double(x) => {
            push_str_chars(out, "!f64 ");
            let s = f64_text(*x);
            push_str_chars(out, s.as_str());
            proof {
                assert(out@ =~= old(out)@ + text_of(*b, ind as nat));
            }
        },
        Byml::String(s) => {
            push_string_scalar(out, s.as_str());
            proof {
                assert(out@ =~= old(out)@ + text_of(*b, ind as nat));
            }
        },
        Byml::BinaryData(d) => {
            push_str_chars(out, "!!binary ");
            let s = base64_encode(d);
            push_str_chars(out, s.as_str());
            proof {
                assert(out@ =~= old(out)@ + text_of(*b, ind as nat));
            }
        },
        Byml::Array(arr) => {
            let inline: bool = should_use_inline(b);
            out.push('[');
            let n: usize = arr.len();
            let mut i: usize = 0;
            proof {
                assert(out@ =~= old(out)@ + seq!['['] + array_items_text(
                    arr@,
                    0,
                    ind2 as nat,
                    inline,
                ));
            }
            while i < n
                invariant
                    *b == Byml::Array(*arr),
                    inline == spec_should_use_inline(b),
                    ind2 as nat == ind_next(ind as nat),
                    n == arr@.len(),
                    i <= n,
                    out@ == old(out)@ + seq!['['] + array_items_text(
                        arr@,
                        i as int,
                        ind2 as nat,
                        inline,
                    ),
                decreases n - i,
            {
                let ghost pre = out@;
                if i > 0 {
                    out.push(',');
                }
                if inline {
                    if i > 0 {
                        out.push(' ');
                    }
                } else {
                    out.push('\n');
                    push_indent(out, ind2);
                }
                proof {
                    assert(out@ =~= pre + sep_text(i as int, inline, ind2 as nat));
                    assert((*b)->Array_0 == *arr);
                    assert(decreases_to!(*b => (*b)->Array_0@[i as int]));
                }
                emit_node(&arr[i], ind2, out);
                proof {
                    assert(out@ =~= old(out)@ + seq!['['] + array_items_text(
                        arr@,
                        i + 1,
                        ind2 as nat,
                        inline,
                    ));
                }
                i = i + 1;
            }
            let ghost pre2 = out@;
            if !inline && n > 0 {
                out.push('\n');
                push_indent(out, ind);
            }
            proof {
                assert(out@ =~= pre2 + close_text(n as int, inline, ind as nat));
            }
            out.push(']');
            proof {
                assert(out@ =~= old(out)@ + text_of(*b, ind as nat));
            }
        },
        Byml::Hash(h) => {
            let inline: bool = should_use_inline(b);
            let order: Vec<usize> = sort_indices(h);
            out.push('{');
            let n: usize = order.len();
            let mut k: usize = 0;
            proof {
                assert(out@ =~= old(out)@ + seq!['{'] + hash_items_text(
                    h@,
                    order@,
                    0,
                    ind2 as nat,
                    inline,
                ));
            }
            while k < n
                invariant
                    *b == Byml::Hash(*h),
                    inline == spec_should_use_inline(b),
                    ind2 as nat == ind_next(ind as nat),
                    n == order@.len(),
                    k <= n,
                    order@ == spec_sort_indices(h@, h@.len() as nat),
                    forall|j: int| 0 <= j < order@.len() ==> (#[trigger] order@[j]) < h@.len(),
                    out@ == old(out)@ + seq!['{'] + hash_items_text(
                        h@,
                        order@,
                        k as int,
                        ind2 as nat,
                        inline,
                    ),
                decreases n - k,
            {
                let ghost pre = out@;
                if k > 0 {
                    out.push(',');
                }
                if inline {
                    if k > 0 {
                        out.push(' ');
                    }
                } else {
                    out.push('\n');
                    push_indent(out, ind2);
                }
                let idx: usize = order[k];
                proof {
                    assert(out@ =~= pre + sep_text(k as int, inline, ind2 as nat));
                    assert((*b)->Hash_0 == *h);
                    assert(decreases_to!(*b => (*b)->Hash_0@[idx as int].1));
                }
                push_key(out, h[idx].0.as_str());
                push_str_chars(out, ": ");
                emit_node(&h[idx].1, ind2, out);
                proof {
                    assert(out@ =~= old(out)@ + seq!['{'] + hash_items_text(
                        h@,
                        order@,
                        k + 1,
                        ind2 as nat,
                        inline,
                    ));
                }
                k = k + 1;
            }
            let ghost pre2 = out@;
            if !inline && n > 0 {
                out.push('\n');
                push_indent(out, ind);
            }
            proof {
                assert(out@ =~= pre2 + close_text(n as int, inline, ind as nat));
            }
            out.push('}');
            proof {
                assert(out@ =~= old(out)@ + text_of(*b, ind as nat));
            }
        },
    }
}

impl Byml {
    /// Parse a BYML document from YAML text. Every mapping in the
    /// result is key-sorted and duplicate-free, so re-emitting
    /// reproduces the text's canonical form; a document of blanks
    /// alone is the null document.
    pub fn from_text(text: &str) -> (r: Result<Byml>)
        ensures
            r matches Ok(b) ==> byml_wf(b),
            (forall|j: int| 0 <= j < text@.len() ==> is_blank_char(#[trigger] text@[j])) ==> (r
                matches Ok(b) && b == Byml::Null),
            ({
                let st = spec_skip_ws(text@, 0);
                (st < text@.len() && !(text@[st] == '[' || text@[st] == '{' || text@[st] == '"'
                    || text@[st] == '\'' || text@[st] == '!')) ==> {
                    let e = spec_scan_plain(text@, st);
                    let e2 = spec_trim(text@, st, e);
                    &&& (r is Ok <==> e2 > st && scalar_node_ok(""@, text@.subrange(st, e2), false)
                        && spec_skip_ws(text@, e) == text@.len())
                    &&& (r matches Ok(b) ==> scalar_node_rel(""@, text@.subrange(st, e2), false, b))
                }
            }),
            ({
                let st = spec_skip_ws(text@, 0);
                (st < text@.len() && text@[st] == '!') ==> {
                    let te = spec_scan_tag(text@, st);
                    let tg = text@.subrange(st, te);
                    let ws = spec_skip_ws(text@, te);
                    (ws >= text@.len() || text@[ws] != '"') ==> {
                        let e = spec_scan_plain(text@, ws);
                        let e2 = spec_trim(text@, ws, e);
                        &&& (r is Ok <==> scalar_node_ok(tg, text@.subrange(ws, e2), false)
                            && spec_skip_ws(text@, e) == text@.len())
                        &&& (r matches Ok(b) ==> scalar_node_rel(
                            tg,
                            text@.subrange(ws, e2),
                            false,
                            b,
                        ))
                    }
                }
            }),
            ({
                let st = spec_skip_ws(text@, 0);
                (st < text@.len() && text@[st] == '"') ==> {
                    &&& (r is Ok <==> (spec_dquoted(text@, st + 1, Seq::empty()) matches Some(q)
                        && spec_skip_ws(text@, q.1) == text@.len()))
                    &&& (r matches Ok(b) ==> (spec_dquoted(text@, st + 1, Seq::empty())
                        matches Some(q) && b matches Byml::String(s) && s@ == q.0))
                }
            }),
            ({
                let st = spec_skip_ws(text@, 0);
                (st < text@.len() && text@[st] == '\'') ==> {
                    &&& (r is Ok <==> (spec_squoted(text@, st + 1, Seq::empty()) matches Some(q)
                        && spec_skip_ws(text@, q.1) == text@.len()))
                    &&& (r matches Ok(b) ==> (spec_squoted(text@, st + 1, Seq::empty())
                        matches Some(q) && b matches Byml::String(s) && s@ == q.0))
                }
            }),
            ({
                let st = spec_skip_ws(text@, 0);
                (st < text@.len() && text@[st] == '[' && spec_skip_ws(text@, st + 1) < text@.len()
                    && text@[spec_skip_ws(text@, st + 1)] == ']' && spec_skip_ws(
                    text@,
                    spec_skip_ws(text@, st + 1) + 1,
                ) == text@.len()) ==> (r matches Ok(b) && b matches Byml::Array(a) && a@.len()
                    == 0)
            }),
            ({
                let st = spec_skip_ws(text@, 0);
                (st < text@.len() && text@[st] == '{' && spec_skip_ws(text@, st + 1) < text@.len()
                    && text@[spec_skip_ws(text@, st + 1)] == '}' && spec_skip_ws(
                    text@,
                    spec_skip_ws(text@, st + 1) + 1,
                ) == text@.len()) ==> (r matches Ok(b) && b matches Byml::Hash(h) && h@.len()
                    == 0)
            }),
    {
        let v = chars_of(text);
        let start: usize = skip_ws(&v, 0);
        if start >= v.len() {
            return Ok(Byml::Null);
        }
        let parsed = match parse_value(&v, 0) {
            Ok(x) => x,
            Err(e) => {
                return Err(e);
            },
        };
        let node = parsed.0;
        let p: usize = parsed.1;
        let e: usize = skip_ws(&v, p);
        if e < v.len() {
            return Err(AampError::InvalidData("trailing characters after the document"));
        }
        Ok(node)
    }

    /// Serialize the document to YAML. Only `Null`, `Array`, and
    /// `Hash` roots can be serialized; a `Null` root is the literal
    /// word `null`.
    pub fn to_text(&self) -> (r: Result<String>)
        ensures
            r is Ok <==> (self matches Byml::Null || self matches Byml::Array(_) || self
                matches Byml::Hash(_)),
            self matches Byml::Null ==> (r matches Ok(s) && s@ == "null"@),
            (self matches Byml::Array(_) || self matches Byml::Hash(_)) ==> (r matches Ok(s) && s@
                == text_of(*self, 0) + seq!['\n']),
            r matches Err(e) ==> e matches AampError::InvalidData(_),
    {
        match self {
            Byml::Null => Ok("null".to_owned()),
            Byml::Array(_) => {
                let mut out: Vec<char> = Vec::new();
                emit_node(self, 0, &mut out);
                out.push('\n');
                proof {
                    assert(out@ =~= text_of(*self, 0) + seq!['\n']);
                }
                Ok(string_from_chars(&out))
            },
            Byml::Hash(_) => {
                let mut out: Vec<char> = Vec::new();
                emit_node(self, 0, &mut out);
                out.push('\n');
                proof {
                    assert(out@ =~= text_of(*self, 0) + seq!['\n']);
                }
                Ok(string_from_chars(&out))
            },
            _ => Err(AampError::InvalidData("can only serialize Hash, Array, or Null nodes")),
        }
    }
}

} // verus!
