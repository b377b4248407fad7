//! The embedded package descriptor: an optional TOML document at a fixed name
//! inside the archive root. Read-only here: flat `key = value` entries with
//! basic strings and string arrays, comments, and unknown keys ignored; a
//! missing `update` entry (older revisions did not write it) defaults to
//! empty.

use vstd::prelude::*;
use crate::codec::{parse_string, parse_str_rest, MetaAcc, MetaAccE, empty_meta_acc, finish_meta,
    d_string, d_str_rest, macc_v};
use crate::record::{Metadata, MetadataV};

verus! {

/// Space or tab.
pub open spec fn t_ws(x: u8) -> bool {
    x == 32 || x == 9
}

/// A newline byte.
pub open spec fn t_nl(x: u8) -> bool {
    x == 10 || x == 13
}

/// A byte of a bare key: letters, digits, underscore, dash.
pub open spec fn t_key_char(x: u8) -> bool {
    (48 <= x <= 57) || (65 <= x <= 90) || (97 <= x <= 122) || x == 95 || x == 45
}

/// The suffix after leading spaces and tabs.
pub open spec fn t_skip_ws(b: Seq<u8>) -> Seq<u8>
    decreases b.len(),
{
    if b.len() > 0 && t_ws(b[0]) {
        t_skip_ws(b.drop_first())
    } else {
        b
    }
}

/// The suffix after a comment: everything up to (not including) the next
/// newline is dropped.
pub open spec fn t_skip_comment(b: Seq<u8>) -> Seq<u8>
    decreases b.len(),
{
    if b.len() > 0 && !t_nl(b[0]) {
        t_skip_comment(b.drop_first())
    } else {
        b
    }
}

/// The suffix after any mix of blanks, newlines and comments.
pub open spec fn t_skip_blank(b: Seq<u8>) -> Seq<u8>
    decreases b.len(),
{
    if b.len() == 0 {
        b
    } else if t_ws(b[0]) || t_nl(b[0]) {
        t_skip_blank(b.drop_first())
    } else if b[0] == 35 {
        let r = t_skip_comment(b.drop_first());
        if r.len() < b.len() {
            t_skip_blank(r)
        } else {
            r
        }
    } else {
        b
    }
}

/// A bare key: its bytes and the suffix after it.
pub open spec fn t_parse_key(b: Seq<u8>) -> (Seq<u8>, Seq<u8>)
    decreases b.len(),
{
    if b.len() > 0 && t_key_char(b[0]) {
        let p = t_parse_key(b.drop_first());
        (seq![b[0]] + p.0, p.1)
    } else {
        (seq![], b)
    }
}

/// A string array: `[` strings separated by commas, optionally trailing, `]`;
/// blanks and comments may stand anywhere between tokens.
pub open spec fn t_parse_array_rest(b: Seq<u8>, acc: Seq<Seq<char>>) -> Option<
    (Seq<Seq<char>>, Seq<u8>),
>
    decreases b.len(),
{
    // before a separator or the closing bracket
    let b1 = t_skip_blank(b);
    if b1.len() == 0 {
        None
    } else if b1[0] == 93 {
        Some((acc, b1.drop_first()))
    } else if b1[0] == 44 {
        let b2 = t_skip_blank(b1.drop_first());
        if b2.len() == 0 {
            None
        } else if b2[0] == 93 {
            Some((acc, b2.drop_first()))
        } else {
            match parse_string(b2) {
                Some(p) => if p.1.len() < b.len() {
                    t_parse_array_rest(p.1, acc.push(p.0))
                } else {
                    None
                },
                None => None,
            }
        }
    } else {
        None
    }
}

pub open spec fn t_parse_array(b: Seq<u8>) -> Option<(Seq<Seq<char>>, Seq<u8>)> {
    if b.len() > 0 && b[0] == 91 {
        let b1 = t_skip_blank(b.drop_first());
        if b1.len() == 0 {
            None
        } else if b1[0] == 93 {
            Some((seq![], b1.drop_first()))
        } else {
            match parse_string(b1) {
                Some(p) => if p.1.len() < b.len() {
                    t_parse_array_rest(p.1, seq![p.0])
                } else {
                    None
                },
                None => None,
            }
        }
    } else {
        None
    }
}

/// Step over an unknown entry's value: a string, an array, or the rest of the
/// line.
pub open spec fn t_skip_value(b: Seq<u8>) -> Option<Seq<u8>>
    decreases b.len(),
{
    if b.len() == 0 {
        None
    } else if b[0] == 34 {
        match parse_str_rest(b.drop_first()) {
            Some(p) => Some(p.1),
            None => None,
        }
    } else if b[0] == 91 {
        match t_parse_array(b) {
            Some(p) => Some(p.1),
            None => None,
        }
    } else {
        Some(t_skip_comment(b))
    }
}

/// After a value: blanks, an optional comment, then a newline or the end.
pub open spec fn t_end_of_entry(b: Seq<u8>) -> Option<Seq<u8>> {
    let b1 = t_skip_ws(b);
    let b2 = if b1.len() > 0 && b1[0] == 35 {
        t_skip_comment(b1.drop_first())
    } else {
        b1
    };
    if b2.len() == 0 {
        Some(b2)
    } else if t_nl(b2[0]) {
        Some(b2.drop_first())
    } else {
        None
    }
}

// key names, as bytes
pub open spec fn tk_id() -> Seq<u8> {
    seq![105u8, 100u8]
}

pub open spec fn tk_name() -> Seq<u8> {
    seq![110u8, 97u8, 109u8, 101u8]
}

pub open spec fn tk_description() -> Seq<u8> {
    seq![100u8, 101u8, 115u8, 99u8, 114u8, 105u8, 112u8, 116u8, 105u8, 111u8, 110u8]
}

pub open spec fn tk_version() -> Seq<u8> {
    seq![118u8, 101u8, 114u8, 115u8, 105u8, 111u8, 110u8]
}

pub open spec fn tk_authors() -> Seq<u8> {
    seq![97u8, 117u8, 116u8, 104u8, 111u8, 114u8, 115u8]
}

pub open spec fn tk_url() -> Seq<u8> {
    seq![117u8, 114u8, 108u8]
}

pub open spec fn tk_update() -> Seq<u8> {
    seq![117u8, 112u8, 100u8, 97u8, 116u8, 101u8]
}

/// One entry's value parsed into the accumulator, dispatched on the key.
pub open spec fn t_entry_value(b: Seq<u8>, key: Seq<u8>, acc: MetaAcc) -> Option<
    (MetaAcc, Seq<u8>),
> {
    if key == tk_id() {
        match parse_string(b) {
            Some(p) => Some((MetaAcc { id: Some(p.0), ..acc }, p.1)),
            None => None,
        }
    } else if key == tk_name() {
        match parse_string(b) {
            Some(p) => Some((MetaAcc { name: Some(p.0), ..acc }, p.1)),
            None => None,
        }
    } else if key == tk_description() {
        match parse_string(b) {
            Some(p) => Some((MetaAcc { description: Some(p.0), ..acc }, p.1)),
            None => None,
        }
    } else if key == tk_version() {
        match parse_string(b) {
            Some(p) => Some((MetaAcc { version: Some(p.0), ..acc }, p.1)),
            None => None,
        }
    } else if key == tk_authors() {
        match t_parse_array(b) {
            Some(p) => Some((MetaAcc { authors: Some(p.0), ..acc }, p.1)),
            None => None,
        }
    } else if key == tk_url() {
        match parse_string(b) {
            Some(p) => Some((MetaAcc { url: Some(p.0), ..acc }, p.1)),
            None => None,
        }
    } else if key == tk_update() {
        match parse_string(b) {
            Some(p) => Some((MetaAcc { update: Some(p.0), ..acc }, p.1)),
            None => None,
        }
    } else {
        match t_skip_value(b) {
            Some(r) => Some((acc, r)),
            None => None,
        }
    }
}

/// The entries of the document, gathered into the accumulator.
pub open spec fn t_parse_entries(b: Seq<u8>, acc: MetaAcc) -> Option<MetadataV>
    decreases b.len(),
{
    let b1 = t_skip_blank(b);
    if b1.len() == 0 {
        finish_meta(acc)
    } else {
        let kp = t_parse_key(b1);
        if kp.0.len() == 0 {
            None
        } else {
            let b2 = t_skip_ws(kp.1);
            if b2.len() > 0 && b2[0] == 61 {
                let b3 = t_skip_ws(b2.drop_first());
                match t_entry_value(b3, kp.0, acc) {
                    Some(ap) => match t_end_of_entry(ap.1) {
                        Some(b4) => if b4.len() < b.len() {
                            t_parse_entries(b4, ap.0)
                        } else {
                            None
                        },
                        None => None,
                    },
                    None => None,
                }
            } else {
                None
            }
        }
    }
}

/// The descriptor a metadata document holds.
pub open spec fn spec_parse_metadata_toml(b: Seq<u8>) -> Option<MetadataV> {
    t_parse_entries(b, empty_meta_acc())
}

/// Which known entry a key names.
pub enum TKey {
    Id,
    Name,
    Description,
    Version,
    Authors,
    Url,
    Update,
    Other,
}

pub open spec fn spec_classify_key(k: Seq<u8>) -> TKey {
    if k == tk_id() {
        TKey::Id
    } else if k == tk_name() {
        TKey::Name
    } else if k == tk_description() {
        TKey::Description
    } else if k == tk_version() {
        TKey::Version
    } else if k == tk_authors() {
        TKey::Authors
    } else if k == tk_url() {
        TKey::Url
    } else if k == tk_update() {
        TKey::Update
    } else {
        TKey::Other
    }
}

fn classify_key(k: &Vec<u8>) -> (r: TKey)
    ensures
        r == spec_classify_key(k@),
{
    if k.len() == 2 && k[0] == 105 && k[1] == 100 {
        proof {
            assert(k@ =~= tk_id());
        }
        TKey::Id
    } else if k.len() == 4 && k[0] == 110 && k[1] == 97 && k[2] == 109 && k[3] == 101 {
        proof {
            assert(k@ =~= tk_name());
        }
        TKey::Name
    } else if k.len() == 11 && k[0] == 100 && k[1] == 101 && k[2] == 115 && k[3] == 99 && k[4]
        == 114 && k[5] == 105 && k[6] == 112 && k[7] == 116 && k[8] == 105 && k[9] == 111 && k[10]
        == 110 {
        proof {
            assert(k@ =~= tk_description());
        }
        TKey::Description
    } else if k.len() == 7 && k[0] == 118 && k[1] == 101 && k[2] == 114 && k[3] == 115 && k[4]
        == 105 && k[5] == 111 && k[6] == 110 {
        proof {
            assert(k@ =~= tk_version());
        }
        TKey::Version
    } else if k.len() == 7 && k[0] == 97 && k[1] == 117 && k[2] == 116 && k[3] == 104 && k[4] == 111
        && k[5] == 114 && k[6] == 115 {
        proof {
            assert(k@ =~= tk_authors());
        }
        TKey::Authors
    } else if k.len() == 3 && k[0] == 117 && k[1] == 114 && k[2] == 108 {
        proof {
            assert(k@ =~= tk_url());
        }
        TKey::Url
    } else if k.len() == 6 && k[0] == 117 && k[1] == 112 && k[2] == 100 && k[3] == 97 && k[4] == 116
        && k[5] == 101 {
        proof {
            assert(k@ =~= tk_update());
        }
        TKey::Update
    } else {
        proof {
            assert(k@ != tk_id()) by {
                if k@ == tk_id() {
                    assert(k@.len() == 2 && k@[0] == 105 && k@[1] == 100);
                }
            }
            assert(k@ != tk_name()) by {
                if k@ == tk_name() {
                    assert(k@.len() == 4 && k@[0] == 110 && k@[1] == 97 && k@[2] == 109 && k@[3]
                        == 101);
                }
            }
            assert(k@ != tk_description()) by {
                if k@ == tk_description() {
                    assert(k@.len() == 11 && k@[0] == 100 && k@[1] == 101 && k@[2] == 115 && k@[3]
                        == 99 && k@[4] == 114 && k@[5] == 105 && k@[6] == 112 && k@[7] == 116
                        && k@[8] == 105 && k@[9] == 111 && k@[10] == 110);
                }
            }
            assert(k@ != tk_version()) by {
                if k@ == tk_version() {
                    assert(k@.len() == 7 && k@[0] == 118 && k@[1] == 101 && k@[2] == 114 && k@[3]
                        == 115 && k@[4] == 105 && k@[5] == 111 && k@[6] == 110);
                }
            }
            assert(k@ != tk_authors()) by {
                if k@ == tk_authors() {
                    assert(k@.len() == 7 && k@[0] == 97 && k@[1] == 117 && k@[2] == 116 && k@[3]
                        == 104 && k@[4] == 111 && k@[5] == 114 && k@[6] == 115);
                }
            }
            assert(k@ != tk_url()) by {
                if k@ == tk_url() {
                    assert(k@.len() == 3 && k@[0] == 117 && k@[1] == 114 && k@[2] == 108);
                }
            }
            assert(k@ != tk_update()) by {
                if k@ == tk_update() {
                    assert(k@.len() == 6 && k@[0] == 117 && k@[1] == 112 && k@[2] == 100 && k@[3]
                        == 97 && k@[4] == 116 && k@[5] == 101);
                }
            }
        }
        TKey::Other
    }
}

fn te_skip_ws(b: &Vec<u8>, pos: usize) -> (p: usize)
    requires
        pos <= b@.len(),
    ensures
        pos <= p <= b@.len() && t_skip_ws(b@.skip(pos as int)) == b@.skip(p as int),
    decreases b@.len() - pos,
{
    let ghost sb = b@.skip(pos as int);
    if pos == b.len() {
        proof {
            assert(sb =~= Seq::<u8>::empty());
        }
        return pos;
    }
    proof {
        assert(sb[0] == b@[pos as int]);
        assert(sb.drop_first() =~= b@.skip(pos + 1 as int));
    }
    let x = b[pos];
    if x == 32 || x == 9 {
        te_skip_ws(b, pos + 1)
    } else {
        pos
    }
}

fn te_skip_comment(b: &Vec<u8>, pos: usize) -> (p: usize)
    requires
        pos <= b@.len(),
    ensures
        pos <= p <= b@.len() && t_skip_comment(b@.skip(pos as int)) == b@.skip(p as int),
    decreases b@.len() - pos,
{
    let ghost sb = b@.skip(pos as int);
    if pos == b.len() {
        proof {
            assert(sb =~= Seq::<u8>::empty());
        }
        return pos;
    }
    proof {
        assert(sb[0] == b@[pos as int]);
        assert(sb.drop_first() =~= b@.skip(pos + 1 as int));
    }
    let x = b[pos];
    if !(x == 10 || x == 13) {
        te_skip_comment(b, pos + 1)
    } else {
        pos
    }
}

fn te_skip_blank(b: &Vec<u8>, pos: usize) -> (p: usize)
    requires
        pos <= b@.len(),
    ensures
        pos <= p <= b@.len() && t_skip_blank(b@.skip(pos as int)) == b@.skip(p as int),
    decreases b@.len() - pos,
{
    let ghost sb = b@.skip(pos as int);
    if pos == b.len() {
        proof {
            assert(sb =~= Seq::<u8>::empty());
        }
        return pos;
    }
    proof {
        assert(sb[0] == b@[pos as int]);
        assert(sb.drop_first() =~= b@.skip(pos + 1 as int));
    }
    let x = b[pos];
    if x == 32 || x == 9 || x == 10 || x == 13 {
        te_skip_blank(b, pos + 1)
    } else if x == 35 {
        let p2 = te_skip_comment(b, pos + 1);
        proof {
            assert(b@.skip(p2 as int).len() < sb.len());
        }
        te_skip_blank(b, p2)
    } else {
        pos
    }
}

fn te_parse_key(b: &Vec<u8>, pos: usize) -> (r: (Vec<u8>, usize))
    requires
        pos <= b@.len(),
    ensures
        pos <= r.1 <= b@.len() && t_parse_key(b@.skip(pos as int)) == (r.0@, b@.skip(r.1 as int)),
    decreases b@.len() - pos,
{
    let ghost sb = b@.skip(pos as int);
    if pos == b.len() {
        proof {
            assert(sb =~= Seq::<u8>::empty());
        }
        let k: Vec<u8> = Vec::new();
        proof {
            assert(k@ =~= Seq::<u8>::empty());
        }
        return (k, pos);
    }
    proof {
        assert(sb[0] == b@[pos as int]);
        assert(sb.drop_first() =~= b@.skip(pos + 1 as int));
    }
    let x = b[pos];
    let is_key = (48 <= x && x <= 57) || (65 <= x && x <= 90) || (97 <= x && x <= 122) || x == 95
        || x == 45;
    if is_key {
        let (mut k, p) = te_parse_key(b, pos + 1);
        let ghost k0 = k@;
        k.insert(0, x);
        proof {
            assert(k@ =~= seq![b@[pos as int]] + k0);
        }
        (k, p)
    } else {
        let k: Vec<u8> = Vec::new();
        proof {
            assert(k@ =~= Seq::<u8>::empty());
        }
        (k, pos)
    }
}

fn te_parse_array_rest(b: &Vec<u8>, pos: usize, acc: Vec<String>) -> (r: Option<
    (Vec<String>, usize)>)
    requires
        pos <= b@.len(),
    ensures
        match r {
            Some(p) => pos <= p.1 <= b@.len() && t_parse_array_rest(
                b@.skip(pos as int),
                acc.deep_view(),
            ) == Some((p.0.deep_view(), b@.skip(p.1 as int))),
            None => t_parse_array_rest(b@.skip(pos as int), acc.deep_view()) is None,
        },
    decreases b@.len() - pos,
{
    let ghost sb = b@.skip(pos as int);
    let p1 = te_skip_blank(b, pos);
    let ghost sb1 = b@.skip(p1 as int);
    if p1 == b.len() {
        proof {
            assert(sb1 =~= Seq::<u8>::empty());
        }
        return None;
    }
    proof {
        assert(sb1[0] == b@[p1 as int]);
        assert(sb1.drop_first() =~= b@.skip(p1 + 1 as int));
    }
    if b[p1] == 93 {
        return Some((acc, p1 + 1));
    }
    if !(b[p1] == 44) {
        return None;
    }
    let p2 = te_skip_blank(b, p1 + 1);
    let ghost sb2 = b@.skip(p2 as int);
    if p2 == b.len() {
        proof {
            assert(sb2 =~= Seq::<u8>::empty());
        }
        return None;
    }
    proof {
        assert(sb2[0] == b@[p2 as int]);
        assert(sb2.drop_first() =~= b@.skip(p2 + 1 as int));
    }
    if b[p2] == 93 {
        return Some((acc, p2 + 1));
    }
    match d_string(b, p2) {
        Some((s, p3)) => {
            let ghost acc0 = acc.deep_view();
            let mut acc = acc;
            acc.push(s);
            proof {
                assert(acc.deep_view() =~= acc0.push(acc.deep_view().last()));
                assert(b@.skip(p3 as int).len() < sb.len());
            }
            te_parse_array_rest(b, p3, acc)
        },
        None => None,
    }
}

fn te_parse_array(b: &Vec<u8>, pos: usize) -> (r: Option<(Vec<String>, usize)>)
    requires
        pos <= b@.len(),
    ensures
        match r {
            Some(p) => pos <= p.1 <= b@.len() && t_parse_array(b@.skip(pos as int)) == Some(
                (p.0.deep_view(), b@.skip(p.1 as int)),
            ),
            None => t_parse_array(b@.skip(pos as int)) is None,
        },
{
    let ghost sb = b@.skip(pos as int);
    if pos == b.len() {
        proof {
            assert(sb =~= Seq::<u8>::empty());
        }
        return None;
    }
    proof {
        assert(sb[0] == b@[pos as int]);
        assert(sb.drop_first() =~= b@.skip(pos + 1 as int));
    }
    if !(b[pos] == 91) {
        return None;
    }
    let p1 = te_skip_blank(b, pos + 1);
    let ghost sb1 = b@.skip(p1 as int);
    if p1 == b.len() {
        proof {
            assert(sb1 =~= Seq::<u8>::empty());
        }
        return None;
    }
    proof {
        assert(sb1[0] == b@[p1 as int]);
        assert(sb1.drop_first() =~= b@.skip(p1 + 1 as int));
    }
    if b[p1] == 93 {
        let empty: Vec<String> = Vec::new();
        proof {
            assert(empty.deep_view() =~= Seq::<Seq<char>>::empty());
        }
        return Some((empty, p1 + 1));
    }
    match d_string(b, p1) {
        Some((s, p2)) => {
            let mut acc: Vec<String> = Vec::new();
            acc.push(s);
            proof {
                assert(acc.deep_view() =~= seq![acc.deep_view()[0]]);
                assert(b@.skip(p2 as int).len() < sb.len());
            }
            te_parse_array_rest(b, p2, acc)
        },
        None => None,
    }
}

fn te_skip_value(b: &Vec<u8>, pos: usize) -> (r: Option<usize>)
    requires
        pos <= b@.len(),
    ensures
        match r {
            Some(p) => pos <= p <= b@.len() && t_skip_value(b@.skip(pos as int)) == Some(
                b@.skip(p as int),
            ),
            None => t_skip_value(b@.skip(pos as int)) is None,
        },
{
    let ghost sb = b@.skip(pos as int);
    if pos == b.len() {
        proof {
            assert(sb =~= Seq::<u8>::empty());
        }
        return None;
    }
    proof {
        assert(sb[0] == b@[pos as int]);
        assert(sb.drop_first() =~= b@.skip(pos + 1 as int));
    }
    let x = b[pos];
    if x == 34 {
        match d_str_rest(b, pos + 1) {
            Some((_c, p)) => Some(p),
            None => None,
        }
    } else if x == 91 {
        match te_parse_array(b, pos) {
            Some((_v, p)) => Some(p),
            None => None,
        }
    } else {
        Some(te_skip_comment(b, pos))
    }
}

fn te_end_of_entry(b: &Vec<u8>, pos: usize) -> (r: Option<usize>)
    requires
        pos <= b@.len(),
    ensures
        match r {
            Some(p) => pos <= p <= b@.len() && t_end_of_entry(b@.skip(pos as int)) == Some(
                b@.skip(p as int),
            ),
            None => t_end_of_entry(b@.skip(pos as int)) is None,
        },
{
    let p1 = te_skip_ws(b, pos);
    let ghost sb1 = b@.skip(p1 as int);
    let p2: usize;
    if p1 < b.len() && b[p1] == 35 {
        proof {
            assert(sb1[0] == b@[p1 as int]);
            assert(sb1.drop_first() =~= b@.skip(p1 + 1 as int));
        }
        p2 = te_skip_comment(b, p1 + 1);
    } else {
        proof {
            if p1 == b@.len() {
                assert(sb1 =~= Seq::<u8>::empty());
            } else {
                assert(sb1[0] == b@[p1 as int]);
            }
        }
        p2 = p1;
    }
    let ghost sb2 = b@.skip(p2 as int);
    if p2 == b.len() {
        proof {
            assert(sb2 =~= Seq::<u8>::empty());
        }
        return Some(p2);
    }
    proof {
        assert(sb2[0] == b@[p2 as int]);
        assert(sb2.drop_first() =~= b@.skip(p2 + 1 as int));
    }
    let x = b[p2];
    if x == 10 || x == 13 {
        Some(p2 + 1)
    } else {
        None
    }
}

#[verifier::spinoff_prover]
#[verifier::rlimit(100)]
fn te_entries(b: &Vec<u8>, pos: usize, acc: MetaAccE) -> (r: Option<Metadata>)
    requires
        pos <= b@.len(),
    ensures
        match r {
            Some(m) => t_parse_entries(b@.skip(pos as int), macc_v(acc)) == Some(m@),
            None => t_parse_entries(b@.skip(pos as int), macc_v(acc)) is None,
        },
    decreases b@.len() - pos,
{
    let ghost sb = b@.skip(pos as int);
    let ghost av = macc_v(acc);
    let p1 = te_skip_blank(b, pos);
    if p1 == b.len() {
        proof {
            assert(b@.skip(p1 as int) =~= Seq::<u8>::empty());
        }
        let ghost accv = macc_v(acc);
        match (acc.id, acc.name, acc.description, acc.version, acc.authors, acc.url) {
            (Some(id), Some(name), Some(description), Some(version), Some(authors), Some(url)) => {
                let update = match acc.update {
                    Some(u) => u,
                    None => String::new(),
                };
                let m = Metadata { id, name, description, version, authors, url, update };
                proof {
                    assert(finish_meta(accv) == Some(m@));
                }
                return Some(m);
            },
            _ => {
                proof {
                    assert(finish_meta(accv) is None);
                }
                return None;
            },
        }
    }
    let (key, p2) = te_parse_key(b, p1);
    if key.len() == 0 {
        return None;
    }
    let p3 = te_skip_ws(b, p2);
    let ghost sb3 = b@.skip(p3 as int);
    if p3 == b.len() {
        proof {
            assert(sb3 =~= Seq::<u8>::empty());
        }
        return None;
    }
    proof {
        assert(sb3[0] == b@[p3 as int]);
        assert(sb3.drop_first() =~= b@.skip(p3 + 1 as int));
    }
    if !(b[p3] == 61) {
        return None;
    }
    let p4 = te_skip_ws(b, p3 + 1);
    let mut acc = acc;
    let p5: usize;
    match classify_key(&key) {
        TKey::Id => {
            match d_string(b, p4) {
                Some((v, p)) => {
                    acc.id = Some(v);
                    p5 = p;
                },
                None => {
                    return None;
                },
            }
        },
        TKey::Name => {
            match d_string(b, p4) {
                Some((v, p)) => {
                    acc.name = Some(v);
                    p5 = p;
                },
                None => {
                    return None;
                },
            }
        },
        TKey::Description => {
            match d_string(b, p4) {
                Some((v, p)) => {
                    acc.description = Some(v);
                    p5 = p;
                },
                None => {
                    return None;
                },
            }
        },
        TKey::Version => {
            match d_string(b, p4) {
                Some((v, p)) => {
                    acc.version = Some(v);
                    p5 = p;
                },
                None => {
                    return None;
                },
            }
        },
        TKey::Authors => {
            match te_parse_array(b, p4) {
                Some((v, p)) => {
                    acc.authors = Some(v);
                    p5 = p;
                },
                None => {
                    return None;
                },
            }
        },
        TKey::Url => {
            match d_string(b, p4) {
                Some((v, p)) => {
                    acc.url = Some(v);
                    p5 = p;
                },
                None => {
                    return None;
                },
            }
        },
        TKey::Update => {
            match d_string(b, p4) {
                Some((v, p)) => {
                    acc.update = Some(v);
                    p5 = p;
                },
                None => {
                    return None;
                },
            }
        },
        TKey::Other => {
            match te_skip_value(b, p4) {
                Some(p) => {
                    p5 = p;
                },
                None => {
                    return None;
                },
            }
        },
    }
    proof {
        assert(t_entry_value(b@.skip(p4 as int), key@, av) == Some(
            (macc_v(acc), b@.skip(p5 as int)),
        ));
    }
    match te_end_of_entry(b, p5) {
        Some(p6) => {
            if p6 > pos {
                proof {
                    assert(b@.skip(p6 as int).len() < sb.len());
                }
                te_entries(b, p6, acc)
            } else {
                proof {
                    assert(b@.skip(p6 as int).len() >= sb.len());
                }
                None
            }
        },
        None => None,
    }
}

/// The descriptor an embedded metadata document declares, or nothing when the
/// document is not in the format.
pub fn parse_metadata_toml(bytes: &Vec<u8>) -> (r: Option<Metadata>)
    ensures
        match r {
            Some(m) => spec_parse_metadata_toml(bytes@) == Some(m@),
            None => spec_parse_metadata_toml(bytes@) is None,
        },
{
    let acc = MetaAccE {
        id: None,
        name: None,
        description: None,
        version: None,
        authors: None,
        url: None,
        update: None,
    };
    proof {
        assert(macc_v(acc) == empty_meta_acc());
        assert(bytes@.skip(0) =~= bytes@);
    }
    te_entries(bytes, 0, acc)
}

} // verus!
