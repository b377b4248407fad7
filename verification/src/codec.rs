//! The manifest's byte format: one JSON document shaped as the record. The
//! encoder always writes the same canonical form; the decoder also accepts
//! reordered fields, ignores unknown future fields, and defaults missing
//! optional fields to absent, so manifests written by older or newer
//! revisions stay readable. Decoding what was encoded gives the record back.

use vstd::prelude::*;
use vstd::utf8::{encode_utf8, decode_utf8, valid_utf8, encode_scalar};
use crate::record::{Metadata, MetadataV, Record, RecordItem, RecordItemV, RecordV};

verus! {

// ---------------------------------------------------------------------------
// Field names
// ---------------------------------------------------------------------------
pub open spec fn k_id() -> Seq<char> {
    seq!['i', 'd']
}

pub open spec fn k_name() -> Seq<char> {
    seq!['n', 'a', 'm', 'e']
}

pub open spec fn k_description() -> Seq<char> {
    seq!['d', 'e', 's', 'c', 'r', 'i', 'p', 't', 'i', 'o', 'n']
}

pub open spec fn k_version() -> Seq<char> {
    seq!['v', 'e', 'r', 's', 'i', 'o', 'n']
}

pub open spec fn k_authors() -> Seq<char> {
    seq!['a', 'u', 't', 'h', 'o', 'r', 's']
}

pub open spec fn k_url() -> Seq<char> {
    seq!['u', 'r', 'l']
}

pub open spec fn k_update() -> Seq<char> {
    seq!['u', 'p', 'd', 'a', 't', 'e']
}

pub open spec fn k_sha256() -> Seq<char> {
    seq!['s', 'h', 'a', '2', '5', '6']
}

pub open spec fn k_last_update_time() -> Seq<char> {
    seq!['l', 'a', 's', 't', '_', 'u', 'p', 'd', 'a', 't', 'e', '_', 't', 'i', 'm', 'e']
}

pub open spec fn k_files() -> Seq<char> {
    seq!['f', 'i', 'l', 'e', 's']
}

pub open spec fn k_from() -> Seq<char> {
    seq!['f', 'r', 'o', 'm']
}

pub open spec fn k_metadata() -> Seq<char> {
    seq!['m', 'e', 't', 'a', 'd', 'a', 't', 'a']
}

pub open spec fn k_installed() -> Seq<char> {
    seq!['i', 'n', 's', 't', 'a', 'l', 'l', 'e', 'd']
}

// ---------------------------------------------------------------------------
// Encoding
// ---------------------------------------------------------------------------
/// The byte for hex digit value `n` (lower case).
pub open spec fn hex_digit(n: int) -> u8 {
    if n < 10 {
        (48 + n) as u8
    } else {
        (87 + n) as u8
    }
}

/// How one byte of a string's UTF-8 form appears inside a JSON string:
/// quotes and backslashes get a backslash escape, control bytes a `\u00XX`
/// escape, everything else stands as it is.
pub open spec fn escape_byte(x: u8) -> Seq<u8> {
    if x == 34 {
        seq![92u8, 34u8]
    } else if x == 92 {
        seq![92u8, 92u8]
    } else if x < 32 {
        seq![92u8, 117u8, 48u8, 48u8, hex_digit(x as int / 16), hex_digit(x as int % 16)]
    } else {
        seq![x]
    }
}

pub open spec fn escape_bytes(cs: Seq<u8>) -> Seq<u8>
    decreases cs.len(),
{
    if cs.len() == 0 {
        seq![]
    } else {
        escape_byte(cs[0]) + escape_bytes(cs.drop_first())
    }
}

/// A JSON string: quoted, escaped UTF-8.
pub open spec fn enc_str(s: Seq<char>) -> Seq<u8> {
    seq![34u8] + escape_bytes(encode_utf8(s)) + seq![34u8]
}

pub open spec fn enc_more_strs(l: Seq<Seq<char>>) -> Seq<u8>
    decreases l.len(),
{
    if l.len() == 0 {
        seq![]
    } else {
        seq![44u8] + enc_str(l[0]) + enc_more_strs(l.drop_first())
    }
}

pub open spec fn enc_strs_items(l: Seq<Seq<char>>) -> Seq<u8> {
    if l.len() == 0 {
        seq![]
    } else {
        enc_str(l[0]) + enc_more_strs(l.drop_first())
    }
}

/// A JSON array of strings.
pub open spec fn enc_strs(l: Seq<Seq<char>>) -> Seq<u8> {
    seq![91u8] + enc_strs_items(l) + seq![93u8]
}

/// A key and its already-encoded value.
pub open spec fn enc_field(k: Seq<char>, v: Seq<u8>) -> Seq<u8> {
    enc_str(k) + seq![58u8] + v
}

#[verifier::opaque]
pub open spec fn enc_metadata(m: MetadataV) -> Seq<u8> {
    seq![123u8] + enc_field(k_id(), enc_str(m.id)) + seq![44u8] + enc_field(
        k_name(),
        enc_str(m.name),
    ) + seq![44u8] + enc_field(k_description(), enc_str(m.description)) + seq![44u8] + enc_field(
        k_version(),
        enc_str(m.version),
    ) + seq![44u8] + enc_field(k_authors(), enc_strs(m.authors)) + seq![44u8] + enc_field(
        k_url(),
        enc_str(m.url),
    ) + seq![44u8] + enc_field(k_update(), enc_str(m.update)) + seq![125u8]
}

pub open spec fn null_bytes() -> Seq<u8> {
    seq![110u8, 117u8, 108u8, 108u8]
}

pub open spec fn enc_meta_opt(m: Option<MetadataV>) -> Seq<u8> {
    match m {
        None => null_bytes(),
        Some(x) => enc_metadata(x),
    }
}

#[verifier::opaque]
pub open spec fn enc_item(it: RecordItemV) -> Seq<u8> {
    seq![123u8] + enc_field(k_sha256(), enc_str(it.sha256)) + seq![44u8] + enc_field(
        k_last_update_time(),
        enc_str(it.last_update_time),
    ) + seq![44u8] + enc_field(k_files(), enc_strs(it.files)) + seq![44u8] + enc_field(
        k_from(),
        enc_str(it.from),
    ) + seq![44u8] + enc_field(k_metadata(), enc_meta_opt(it.metadata)) + seq![125u8]
}

pub open spec fn enc_more_entries(s: Seq<(Seq<char>, RecordItemV)>) -> Seq<u8>
    decreases s.len(),
{
    if s.len() == 0 {
        seq![]
    } else {
        seq![44u8] + enc_field(s[0].0, enc_item(s[0].1)) + enc_more_entries(s.drop_first())
    }
}

pub open spec fn enc_entries(s: Seq<(Seq<char>, RecordItemV)>) -> Seq<u8> {
    if s.len() == 0 {
        seq![]
    } else {
        enc_field(s[0].0, enc_item(s[0].1)) + enc_more_entries(s.drop_first())
    }
}

/// The canonical byte form of a record.
pub open spec fn spec_encode_record(rv: RecordV) -> Seq<u8> {
    seq![123u8] + enc_field(k_installed(), seq![123u8] + enc_entries(rv.installed) + seq![125u8])
        + seq![125u8]
}

// ---------------------------------------------------------------------------
// Executable encoder
// ---------------------------------------------------------------------------
#[verifier::spinoff_prover]
#[verifier::rlimit(100)]
fn e_escape(cs: &Vec<u8>, i: usize, out: &mut Vec<u8>)
    requires
        i <= cs@.len(),
    ensures
        final(out)@ == old(out)@ + escape_bytes(cs@.skip(i as int)),
    decreases cs@.len() - i,
{
    if i == cs.len() {
        proof {
            assert(cs@.skip(i as int) =~= Seq::<u8>::empty());
            assert(final(out)@ =~= old(out)@ + escape_bytes(Seq::<u8>::empty()));
        }
    } else {
        let ghost base = out@;
        let x = cs[i];
        if x == 34 {
            out.push(92);
            out.push(34);
        } else if x == 92 {
            out.push(92);
            out.push(92);
        } else if x < 32 {
            out.push(92);
            out.push(117);
            out.push(48);
            out.push(48);
            let hi = x / 16;
            let lo = x % 16;
            out.push(48 + hi);
            if lo < 10 {
                out.push(48 + lo);
            } else {
                out.push(87 + lo);
            }
        } else {
            out.push(x);
        }
        proof {
            assert(out@ =~= base + escape_byte(cs@[i as int]));
        }
        e_escape(cs, i + 1, out);
        proof {
            assert(cs@.skip(i as int)[0] == cs@[i as int]);
            assert(cs@.skip(i as int).drop_first() =~= cs@.skip(i + 1 as int));
            assert(escape_bytes(cs@.skip(i as int)) == escape_byte(cs@[i as int]) + escape_bytes(
                cs@.skip(i + 1 as int),
            ));
            assert(final(out)@ =~= base + escape_bytes(cs@.skip(i as int)));
        }
    }
}

#[verifier::spinoff_prover]
#[verifier::rlimit(100)]
fn e_string(s: &String, out: &mut Vec<u8>)
    ensures
        final(out)@ == old(out)@ + enc_str(s@),
{
    let ghost base = out@;
    out.push(34);
    let cs = s.as_str().as_bytes_vec();
    e_escape(&cs, 0, out);
    out.push(34);
    proof {
        assert(cs@.skip(0) =~= cs@);
        assert(final(out)@ =~= base + enc_str(s@));
    }
}

#[verifier::spinoff_prover]
#[verifier::rlimit(100)]
fn e_more_strs(l: &Vec<String>, i: usize, out: &mut Vec<u8>)
    requires
        i <= l@.len(),
    ensures
        final(out)@ == old(out)@ + enc_more_strs(l.deep_view().skip(i as int)),
    decreases l@.len() - i,
{
    if i == l.len() {
        proof {
            assert(l.deep_view().skip(i as int) =~= Seq::<Seq<char>>::empty());
            assert(final(out)@ =~= old(out)@ + enc_more_strs(Seq::<Seq<char>>::empty()));
        }
    } else {
        let ghost base = out@;
        let ghost rest = l.deep_view().skip(i as int);
        proof {
            assert(rest[0] == l.deep_view()[i as int]);
            assert(rest.drop_first() =~= l.deep_view().skip(i + 1 as int));
        }
        out.push(44);
        e_string(&l[i], out);
        e_more_strs(l, i + 1, out);
        proof {
            assert(final(out)@ =~= base + enc_more_strs(rest));
        }
    }
}

#[verifier::spinoff_prover]
#[verifier::rlimit(100)]
fn e_strs(l: &Vec<String>, out: &mut Vec<u8>)
    ensures
        final(out)@ == old(out)@ + enc_strs(l.deep_view()),
{
    let ghost base = out@;
    out.push(91);
    if l.len() > 0 {
        proof {
            assert(l.deep_view()[0] == l.deep_view()[0]);
            assert(l.deep_view().drop_first() =~= l.deep_view().skip(1));
        }
        e_string(&l[0], out);
        e_more_strs(l, 1, out);
    }
    out.push(93);
    proof {
        assert(final(out)@ =~= base + enc_strs(l.deep_view()));
    }
}

#[verifier::spinoff_prover]
#[verifier::rlimit(100)]
fn e_metadata(m: &Metadata, out: &mut Vec<u8>)
    ensures
        final(out)@ == old(out)@ + enc_metadata(m@),
{
    let ghost base = out@;
    proof {
        reveal(enc_metadata);
        reveal_strlit("id");
        reveal_strlit("name");
        reveal_strlit("description");
        reveal_strlit("version");
        reveal_strlit("authors");
        reveal_strlit("url");
        reveal_strlit("update");
        assert("id"@ =~= k_id());
        assert("name"@ =~= k_name());
        assert("description"@ =~= k_description());
        assert("version"@ =~= k_version());
        assert("authors"@ =~= k_authors());
        assert("url"@ =~= k_url());
        assert("update"@ =~= k_update());
    }
    out.push(123);
    e_string(&String::from_str("id"), out);
    out.push(58);
    e_string(&m.id, out);
    out.push(44);
    e_string(&String::from_str("name"), out);
    out.push(58);
    e_string(&m.name, out);
    out.push(44);
    e_string(&String::from_str("description"), out);
    out.push(58);
    e_string(&m.description, out);
    out.push(44);
    e_string(&String::from_str("version"), out);
    out.push(58);
    e_string(&m.version, out);
    out.push(44);
    e_string(&String::from_str("authors"), out);
    out.push(58);
    e_strs(&m.authors, out);
    out.push(44);
    e_string(&String::from_str("url"), out);
    out.push(58);
    e_string(&m.url, out);
    out.push(44);
    e_string(&String::from_str("update"), out);
    out.push(58);
    e_string(&m.update, out);
    out.push(125);
    proof {
        assert(final(out)@ =~= base + enc_metadata(m@));
    }
}

#[verifier::spinoff_prover]
#[verifier::rlimit(100)]
fn e_meta_opt(m: &Option<Metadata>, out: &mut Vec<u8>)
    ensures
        final(out)@ == old(out)@ + enc_meta_opt(match m {
            Some(x) => Some(x@),
            None => None,
        }),
{
    match m {
        None => {
            let ghost base = out@;
            out.push(110);
            out.push(117);
            out.push(108);
            out.push(108);
            proof {
                assert(final(out)@ =~= base + null_bytes());
            }
        },
        Some(x) => {
            e_metadata(x, out);
        },
    }
}

#[verifier::spinoff_prover]
#[verifier::rlimit(100)]
fn e_item(it: &RecordItem, out: &mut Vec<u8>)
    ensures
        final(out)@ == old(out)@ + enc_item(it@),
{
    let ghost base = out@;
    proof {
        reveal(enc_item);
        reveal_strlit("sha256");
        reveal_strlit("last_update_time");
        reveal_strlit("files");
        reveal_strlit("from");
        reveal_strlit("metadata");
        assert("sha256"@ =~= k_sha256());
        assert("last_update_time"@ =~= k_last_update_time());
        assert("files"@ =~= k_files());
        assert("from"@ =~= k_from());
        assert("metadata"@ =~= k_metadata());
    }
    out.push(123);
    e_string(&String::from_str("sha256"), out);
    out.push(58);
    e_string(&it.sha256, out);
    out.push(44);
    e_string(&String::from_str("last_update_time"), out);
    out.push(58);
    e_string(&it.last_update_time, out);
    out.push(44);
    e_string(&String::from_str("files"), out);
    out.push(58);
    e_strs(&it.files, out);
    out.push(44);
    e_string(&String::from_str("from"), out);
    out.push(58);
    e_string(&it.from, out);
    out.push(44);
    e_string(&String::from_str("metadata"), out);
    out.push(58);
    e_meta_opt(&it.metadata, out);
    out.push(125);
    proof {
        assert(final(out)@ =~= base + enc_item(it@));
    }
}

#[verifier::rlimit(100)]
#[verifier::spinoff_prover]
fn e_more_entries(entries: &Vec<(String, RecordItem)>, i: usize, out: &mut Vec<u8>)
    requires
        1 <= i <= entries@.len(),
    ensures
        final(out)@ == old(out)@ + enc_more_entries(
            entries@.map_values(|p: (String, RecordItem)| (p.0@, p.1@)).skip(i as int),
        ),
    decreases entries@.len() - i,
{
    let ghost view_all = entries@.map_values(|p: (String, RecordItem)| (p.0@, p.1@));
    if i == entries.len() {
        proof {
            assert(view_all.skip(i as int) =~= Seq::<(Seq<char>, RecordItemV)>::empty());
            assert(final(out)@ =~= old(out)@ + enc_more_entries(
                Seq::<(Seq<char>, RecordItemV)>::empty(),
            ));
        }
    } else {
        let ghost base = out@;
        let ghost rest = view_all.skip(i as int);
        proof {
            assert(rest[0] == view_all[i as int]);
            assert(rest.drop_first() =~= view_all.skip(i + 1 as int));
        }
        out.push(44);
        e_string(&entries[i].0, out);
        out.push(58);
        e_item(&entries[i].1, out);
        e_more_entries(entries, i + 1, out);
        proof {
            assert(final(out)@ =~= base + enc_more_entries(rest));
        }
    }
}

/// The canonical byte form of the record, as one JSON document.
#[verifier::rlimit(100)]
#[verifier::spinoff_prover]
pub fn encode_record(r: &Record) -> (out: Vec<u8>)
    ensures
        out@ == spec_encode_record(r@),
{
    let ghost view_all = r.installed@.map_values(|p: (String, RecordItem)| (p.0@, p.1@));
    let mut out: Vec<u8> = Vec::new();
    proof {
        reveal_strlit("installed");
        assert("installed"@ =~= k_installed());
    }
    out.push(123);
    e_string(&String::from_str("installed"), &mut out);
    out.push(58);
    out.push(123);
    if r.installed.len() > 0 {
        proof {
            assert(view_all[0] == view_all[0]);
            assert(view_all.drop_first() =~= view_all.skip(1));
        }
        e_string(&r.installed[0].0, &mut out);
        out.push(58);
        e_item(&r.installed[0].1, &mut out);
        e_more_entries(&r.installed, 1, &mut out);
    }
    out.push(125);
    out.push(125);
    proof {
        assert(out@ =~= spec_encode_record(r@));
    }
    out
}

// ---------------------------------------------------------------------------
// Parsing. Each function consumes a prefix of the input and returns the
// value together with the remaining suffix, or nothing when the input is not
// in the format.
// ---------------------------------------------------------------------------
/// The value of one hex digit byte.
pub open spec fn hex_val(x: u8) -> Option<int> {
    if 48 <= x <= 57 {
        Some((x - 48) as int)
    } else if 97 <= x <= 102 {
        Some((x - 87) as int)
    } else if 65 <= x <= 70 {
        Some((x - 55) as int)
    } else {
        None
    }
}

/// The rest of a JSON string after its opening quote: the raw (unescaped)
/// content bytes and the suffix after the closing quote.
pub open spec fn parse_str_rest(b: Seq<u8>) -> Option<(Seq<u8>, Seq<u8>)>
    decreases b.len(),
{
    if b.len() == 0 {
        None
    } else if b[0] == 34 {
        Some((seq![], b.drop_first()))
    } else if b[0] == 92 {
        if b.len() < 2 {
            None
        } else {
            let e = b[1];
            if e == 34 || e == 92 || e == 47 {
                match parse_str_rest(b.skip(2)) {
                    Some(p) => Some((seq![e] + p.0, p.1)),
                    None => None,
                }
            } else if e == 98 {
                match parse_str_rest(b.skip(2)) {
                    Some(p) => Some((seq![8u8] + p.0, p.1)),
                    None => None,
                }
            } else if e == 102 {
                match parse_str_rest(b.skip(2)) {
                    Some(p) => Some((seq![12u8] + p.0, p.1)),
                    None => None,
                }
            } else if e == 110 {
                match parse_str_rest(b.skip(2)) {
                    Some(p) => Some((seq![10u8] + p.0, p.1)),
                    None => None,
                }
            } else if e == 114 {
                match parse_str_rest(b.skip(2)) {
                    Some(p) => Some((seq![13u8] + p.0, p.1)),
                    None => None,
                }
            } else if e == 116 {
                match parse_str_rest(b.skip(2)) {
                    Some(p) => Some((seq![9u8] + p.0, p.1)),
                    None => None,
                }
            } else if e == 117 {
                if b.len() < 6 {
                    None
                } else {
                    match (hex_val(b[2]), hex_val(b[3]), hex_val(b[4]), hex_val(b[5])) {
                        (Some(h3), Some(h2), Some(h1), Some(h0)) => {
                            let v = h3 * 4096 + h2 * 256 + h1 * 16 + h0;
                            if 0xD800 <= v <= 0xDFFF {
                                None
                            } else {
                                match parse_str_rest(b.skip(6)) {
                                    Some(p) => Some((encode_scalar(v as u32) + p.0, p.1)),
                                    None => None,
                                }
                            }
                        },
                        _ => None,
                    }
                }
            } else {
                None
            }
        }
    } else if b[0] < 32 {
        None
    } else {
        match parse_str_rest(b.drop_first()) {
            Some(p) => Some((seq![b[0]] + p.0, p.1)),
            None => None,
        }
    }
}

/// A JSON string: its characters and the suffix after the closing quote.
/// Content that is not valid UTF-8 is rejected.
pub open spec fn parse_string(b: Seq<u8>) -> Option<(Seq<char>, Seq<u8>)> {
    if b.len() > 0 && b[0] == 34 {
        match parse_str_rest(b.drop_first()) {
            Some(p) => if valid_utf8(p.0) {
                Some((decode_utf8(p.0), p.1))
            } else {
                None
            },
            None => None,
        }
    } else {
        None
    }
}

/// A whitespace byte.
pub open spec fn is_ws(x: u8) -> bool {
    x == 32 || x == 9 || x == 10 || x == 13
}

/// The suffix after any leading whitespace: tokens may be separated by it.
pub open spec fn ws_suffix(b: Seq<u8>) -> Seq<u8>
    decreases b.len(),
{
    if b.len() > 0 && is_ws(b[0]) {
        ws_suffix(b.drop_first())
    } else {
        b
    }
}

pub open spec fn parse_strs_rest(b: Seq<u8>, acc: Seq<Seq<char>>) -> Option<
    (Seq<Seq<char>>, Seq<u8>),
>
    decreases b.len(),
{
    let b0 = ws_suffix(b);
    if b0.len() == 0 {
        None
    } else if b0[0] == 93 {
        Some((acc, b0.drop_first()))
    } else if b0[0] == 44 {
        match parse_string(ws_suffix(b0.drop_first())) {
            Some(p) => if p.1.len() < b.len() {
                parse_strs_rest(p.1, acc.push(p.0))
            } else {
                None
            },
            None => None,
        }
    } else {
        None
    }
}

/// A JSON array of strings.
pub open spec fn parse_strs(b: Seq<u8>) -> Option<(Seq<Seq<char>>, Seq<u8>)> {
    if b.len() > 0 && b[0] == 91 {
        let b1 = ws_suffix(b.drop_first());
        if b1.len() > 0 && b1[0] == 93 {
            Some((seq![], b1.drop_first()))
        } else {
            match parse_string(b1) {
                Some(p) => if p.1.len() < b.len() {
                    parse_strs_rest(p.1, seq![p.0])
                } else {
                    None
                },
                None => None,
            }
        }
    } else {
        None
    }
}

/// A byte that ends a primitive value.
pub open spec fn is_delim(x: u8) -> bool {
    x == 44 || x == 125 || x == 93
}

pub open spec fn skip_prim(b: Seq<u8>) -> Seq<u8>
    decreases b.len(),
{
    if b.len() > 0 && !is_delim(b[0]) {
        skip_prim(b.drop_first())
    } else {
        b
    }
}

pub open spec fn skip_nested(b: Seq<u8>, depth: int) -> Option<Seq<u8>>
    decreases b.len(),
{
    if b.len() == 0 {
        None
    } else if b[0] == 34 {
        match parse_str_rest(b.drop_first()) {
            Some(p) => if p.1.len() < b.len() {
                skip_nested(p.1, depth)
            } else {
                None
            },
            None => None,
        }
    } else if b[0] == 123 || b[0] == 91 {
        skip_nested(b.drop_first(), depth + 1)
    } else if b[0] == 125 || b[0] == 93 {
        if depth == 1 {
            Some(b.drop_first())
        } else {
            skip_nested(b.drop_first(), depth - 1)
        }
    } else {
        skip_nested(b.drop_first(), depth)
    }
}

/// Step over one value of any shape: the suffix after it. Used to ignore
/// fields that a future revision may add.
pub open spec fn skip_value(b: Seq<u8>) -> Option<Seq<u8>> {
    if b.len() == 0 {
        None
    } else if b[0] == 34 {
        match parse_str_rest(b.drop_first()) {
            Some(p) => Some(p.1),
            None => None,
        }
    } else if b[0] == 123 || b[0] == 91 {
        skip_nested(b.drop_first(), 1)
    } else if is_delim(b[0]) {
        None
    } else {
        Some(skip_prim(b.drop_first()))
    }
}

/// The fields of a descriptor object gathered so far.
pub struct MetaAcc {
    pub id: Option<Seq<char>>,
    pub name: Option<Seq<char>>,
    pub description: Option<Seq<char>>,
    pub version: Option<Seq<char>>,
    pub authors: Option<Seq<Seq<char>>>,
    pub url: Option<Seq<char>>,
    pub update: Option<Seq<char>>,
}

pub open spec fn empty_meta_acc() -> MetaAcc {
    MetaAcc {
        id: None,
        name: None,
        description: None,
        version: None,
        authors: None,
        url: None,
        update: None,
    }
}

/// A finished descriptor: every field but `update` is required; a missing
/// `update` (older revisions did not write it) defaults to empty.
pub open spec fn finish_meta(acc: MetaAcc) -> Option<MetadataV> {
    if acc.id is Some && acc.name is Some && acc.description is Some && acc.version is Some
        && acc.authors is Some && acc.url is Some {
        Some(
            MetadataV {
                id: acc.id->Some_0,
                name: acc.name->Some_0,
                description: acc.description->Some_0,
                version: acc.version->Some_0,
                authors: acc.authors->Some_0,
                url: acc.url->Some_0,
                update: match acc.update {
                    Some(u) => u,
                    None => seq![],
                },
            },
        )
    } else {
        None
    }
}

/// One descriptor field's value, dispatched on the key; unknown keys are
/// skipped.
pub open spec fn parse_meta_field_value(b: Seq<u8>, key: Seq<char>, acc: MetaAcc) -> Option<
    (MetaAcc, Seq<u8>),
> {
    if key == k_id() {
        match parse_string(b) {
            Some(p) => Some((MetaAcc { id: Some(p.0), ..acc }, p.1)),
            None => None,
        }
    } else if key == k_name() {
        match parse_string(b) {
            Some(p) => Some((MetaAcc { name: Some(p.0), ..acc }, p.1)),
            None => None,
        }
    } else if key == k_description() {
        match parse_string(b) {
            Some(p) => Some((MetaAcc { description: Some(p.0), ..acc }, p.1)),
            None => None,
        }
    } else if key == k_version() {
        match parse_string(b) {
            Some(p) => Some((MetaAcc { version: Some(p.0), ..acc }, p.1)),
            None => None,
        }
    } else if key == k_authors() {
        match parse_strs(b) {
            Some(p) => Some((MetaAcc { authors: Some(p.0), ..acc }, p.1)),
            None => None,
        }
    } else if key == k_url() {
        match parse_string(b) {
            Some(p) => Some((MetaAcc { url: Some(p.0), ..acc }, p.1)),
            None => None,
        }
    } else if key == k_update() {
        match parse_string(b) {
            Some(p) => Some((MetaAcc { update: Some(p.0), ..acc }, p.1)),
            None => None,
        }
    } else {
        match skip_value(b) {
            Some(r) => Some((acc, r)),
            None => None,
        }
    }
}

pub open spec fn parse_meta_fields(b: Seq<u8>, acc: MetaAcc) -> Option<(MetadataV, Seq<u8>)>
    decreases b.len(),
{
    match parse_string(ws_suffix(b)) {
        Some(kp) => {
            let b1 = ws_suffix(kp.1);
            if b1.len() > 0 && b1[0] == 58 {
                match parse_meta_field_value(ws_suffix(b1.drop_first()), kp.0, acc) {
                    Some(ap) => {
                        let b3 = ws_suffix(ap.1);
                        if b3.len() < b.len() && b3.len() > 0 {
                            if b3[0] == 44 {
                                parse_meta_fields(b3.drop_first(), ap.0)
                            } else if b3[0] == 125 {
                                match finish_meta(ap.0) {
                                    Some(m) => Some((m, b3.drop_first())),
                                    None => None,
                                }
                            } else {
                                None
                            }
                        } else {
                            None
                        }
                    },
                    None => None,
                }
            } else {
                None
            }
        },
        None => None,
    }
}

/// A descriptor object.
pub open spec fn parse_metadata(b: Seq<u8>) -> Option<(MetadataV, Seq<u8>)> {
    if b.len() > 0 && b[0] == 123 {
        parse_meta_fields(b.drop_first(), empty_meta_acc())
    } else {
        None
    }
}

/// The fields of one record entry gathered so far.
pub struct ItemAcc {
    pub sha256: Option<Seq<char>>,
    pub last_update_time: Option<Seq<char>>,
    pub files: Option<Seq<Seq<char>>>,
    pub from: Option<Seq<char>>,
    pub metadata: Option<Option<MetadataV>>,
}

pub open spec fn empty_item_acc() -> ItemAcc {
    ItemAcc { sha256: None, last_update_time: None, files: None, from: None, metadata: None }
}

/// A finished entry: a missing `metadata` field defaults to absent metadata.
pub open spec fn finish_item(acc: ItemAcc) -> Option<RecordItemV> {
    if acc.sha256 is Some && acc.last_update_time is Some && acc.files is Some && acc.from
        is Some {
        Some(
            RecordItemV {
                sha256: acc.sha256->Some_0,
                last_update_time: acc.last_update_time->Some_0,
                files: acc.files->Some_0,
                from: acc.from->Some_0,
                metadata: match acc.metadata {
                    Some(m) => m,
                    None => None,
                },
            },
        )
    } else {
        None
    }
}

/// One entry field's value, dispatched on the key; `metadata` may be `null`;
/// unknown keys are skipped.
pub open spec fn parse_item_field_value(b: Seq<u8>, key: Seq<char>, acc: ItemAcc) -> Option<
    (ItemAcc, Seq<u8>),
> {
    if key == k_sha256() {
        match parse_string(b) {
            Some(p) => Some((ItemAcc { sha256: Some(p.0), ..acc }, p.1)),
            None => None,
        }
    } else if key == k_last_update_time() {
        match parse_string(b) {
            Some(p) => Some((ItemAcc { last_update_time: Some(p.0), ..acc }, p.1)),
            None => None,
        }
    } else if key == k_files() {
        match parse_strs(b) {
            Some(p) => Some((ItemAcc { files: Some(p.0), ..acc }, p.1)),
            None => None,
        }
    } else if key == k_from() {
        match parse_string(b) {
            Some(p) => Some((ItemAcc { from: Some(p.0), ..acc }, p.1)),
            None => None,
        }
    } else if key == k_metadata() {
        if b.len() >= 4 && b.subrange(0, 4) == null_bytes() {
            Some((ItemAcc { metadata: Some(None), ..acc }, b.skip(4)))
        } else {
            match parse_metadata(b) {
                Some(p) => Some((ItemAcc { metadata: Some(Some(p.0)), ..acc }, p.1)),
                None => None,
            }
        }
    } else {
        match skip_value(b) {
            Some(r) => Some((acc, r)),
            None => None,
        }
    }
}

pub open spec fn parse_item_fields(b: Seq<u8>, acc: ItemAcc) -> Option<(RecordItemV, Seq<u8>)>
    decreases b.len(),
{
    match parse_string(ws_suffix(b)) {
        Some(kp) => {
            let b1 = ws_suffix(kp.1);
            if b1.len() > 0 && b1[0] == 58 {
                match parse_item_field_value(ws_suffix(b1.drop_first()), kp.0, acc) {
                    Some(ap) => {
                        let b3 = ws_suffix(ap.1);
                        if b3.len() < b.len() && b3.len() > 0 {
                            if b3[0] == 44 {
                                parse_item_fields(b3.drop_first(), ap.0)
                            } else if b3[0] == 125 {
                                match finish_item(ap.0) {
                                    Some(it) => Some((it, b3.drop_first())),
                                    None => None,
                                }
                            } else {
                                None
                            }
                        } else {
                            None
                        }
                    },
                    None => None,
                }
            } else {
                None
            }
        },
        None => None,
    }
}

/// One record entry object.
pub open spec fn parse_item(b: Seq<u8>) -> Option<(RecordItemV, Seq<u8>)> {
    if b.len() > 0 && b[0] == 123 {
        parse_item_fields(b.drop_first(), empty_item_acc())
    } else {
        None
    }
}

pub open spec fn parse_entries_fields(b: Seq<u8>, acc: Seq<(Seq<char>, RecordItemV)>) -> Option<
    (Seq<(Seq<char>, RecordItemV)>, Seq<u8>),
>
    decreases b.len(),
{
    match parse_string(ws_suffix(b)) {
        Some(kp) => {
            let b1 = ws_suffix(kp.1);
            if b1.len() > 0 && b1[0] == 58 {
                match parse_item(ws_suffix(b1.drop_first())) {
                    Some(ip) => {
                        if exists|i: int| 0 <= i < acc.len() && acc[i].0 == kp.0 {
                            None
                        } else {
                            let acc2 = acc.push((kp.0, ip.0));
                            let b3 = ws_suffix(ip.1);
                            if b3.len() < b.len() && b3.len() > 0 {
                                if b3[0] == 44 {
                                    parse_entries_fields(b3.drop_first(), acc2)
                                } else if b3[0] == 125 {
                                    Some((acc2, b3.drop_first()))
                                } else {
                                    None
                                }
                            } else {
                                None
                            }
                        }
                    },
                    None => None,
                }
            } else {
                None
            }
        },
        None => None,
    }
}

/// The `installed` map: install id to entry; duplicate install ids make the
/// document invalid.
pub open spec fn parse_installed(b: Seq<u8>) -> Option<(Seq<(Seq<char>, RecordItemV)>, Seq<u8>)> {
    if b.len() > 0 && b[0] == 123 {
        let b1 = ws_suffix(b.drop_first());
        if b1.len() > 0 && b1[0] == 125 {
            Some((seq![], b1.drop_first()))
        } else {
            parse_entries_fields(b1, seq![])
        }
    } else {
        None
    }
}

pub open spec fn parse_rec_fields(b: Seq<u8>, acc: Option<Seq<(Seq<char>, RecordItemV)>>) -> Option<
    (RecordV, Seq<u8>),
>
    decreases b.len(),
{
    match parse_string(ws_suffix(b)) {
        Some(kp) => {
            let b1 = ws_suffix(kp.1);
            if b1.len() > 0 && b1[0] == 58 {
                let step: Option<(Option<Seq<(Seq<char>, RecordItemV)>>, Seq<u8>)> = if kp.0
                    == k_installed() {
                    match parse_installed(ws_suffix(b1.drop_first())) {
                        Some(p) => Some((Some(p.0), p.1)),
                        None => None,
                    }
                } else {
                    match skip_value(ws_suffix(b1.drop_first())) {
                        Some(r) => Some((acc, r)),
                        None => None,
                    }
                };
                match step {
                    Some(sp) => {
                        let b3 = ws_suffix(sp.1);
                        if b3.len() < b.len() && b3.len() > 0 {
                            if b3[0] == 44 {
                                parse_rec_fields(b3.drop_first(), sp.0)
                            } else if b3[0] == 125 {
                                match sp.0 {
                                    Some(entries) => Some(
                                        (RecordV { installed: entries }, b3.drop_first()),
                                    ),
                                    None => None,
                                }
                            } else {
                                None
                            }
                        } else {
                            None
                        }
                    },
                    None => None,
                }
            } else {
                None
            }
        },
        None => None,
    }
}

/// The record document.
pub open spec fn parse_record(b: Seq<u8>) -> Option<(RecordV, Seq<u8>)> {
    let b0 = ws_suffix(b);
    if b0.len() > 0 && b0[0] == 123 {
        parse_rec_fields(b0.drop_first(), None)
    } else {
        None
    }
}

/// The record a manifest document holds: the parsed record, provided nothing
/// but whitespace follows it.
pub open spec fn spec_decode_record(b: Seq<u8>) -> Option<RecordV> {
    match parse_record(b) {
        Some(p) => if forall|i: int| 0 <= i < p.1.len() ==> is_ws(#[trigger] p.1[i]) {
            Some(p.0)
        } else {
            None
        },
        None => None,
    }
}

// ---------------------------------------------------------------------------
// Executable decoder
// ---------------------------------------------------------------------------
/// Relies on String::from_utf8: returns the string whose UTF-8 encoding is
/// the input, exactly when the input is valid UTF-8.
#[verifier::external_body]
#[verifier::spinoff_prover]
#[verifier::rlimit(100)]
pub(crate) fn bytes_to_string(v: Vec<u8>) -> (r: Option<String>)
    ensures
        match r {
            Some(s) => valid_utf8(v@) && s@ == decode_utf8(v@),
            None => !valid_utf8(v@),
        },
{
    match String::from_utf8(v) {
        Ok(s) => Some(s),
        Err(_) => None,
    }
}

#[verifier::spinoff_prover]
#[verifier::rlimit(100)]
fn d_hex(x: u8) -> (r: Option<u8>)
    ensures
        match r {
            Some(h) => hex_val(x) == Some(h as int),
            None => hex_val(x) is None,
        },
{
    if 48 <= x && x <= 57 {
        Some(x - 48)
    } else if 97 <= x && x <= 102 {
        Some(x - 87)
    } else if 65 <= x && x <= 70 {
        Some(x - 55)
    } else {
        None
    }
}

#[verifier::spinoff_prover]
#[verifier::rlimit(100)]
pub(crate) fn d_str_rest(b: &Vec<u8>, pos: usize) -> (r: Option<(Vec<u8>, usize)>)
    requires
        pos <= b@.len(),
    ensures
        match r {
            Some(p) => pos < p.1 <= b@.len() && parse_str_rest(b@.skip(pos as int)) == Some(
                (p.0@, b@.skip(p.1 as int)),
            ),
            None => parse_str_rest(b@.skip(pos as int)) is None,
        },
    decreases b@.len() - pos,
{
    let ghost sb = b@.skip(pos as int);
    if pos == b.len() {
        proof {
            assert(sb =~= Seq::<u8>::empty());
        }
        return None;
    }
    proof {
        assert(sb[0] == b@[pos as int]);
        assert(sb.drop_first() =~= b@.skip(pos + 1 as int));
    }
    let x = b[pos];
    if x == 34 {
        let c: Vec<u8> = Vec::new();
        proof {
            assert(c@ =~= Seq::<u8>::empty());
        }
        Some((c, pos + 1))
    } else if x == 92 {
        if pos + 1 == b.len() {
            proof {
                assert(sb.len() < 2);
            }
            return None;
        }
        proof {
            assert(sb.len() >= 2);
            assert(sb[1] == b@[pos + 1 as int]);
            assert(sb.skip(2) =~= b@.skip(pos + 2 as int));
        }
        let e = b[pos + 1];
        if e == 34 || e == 92 || e == 47 || e == 98 || e == 102 || e == 110 || e == 114 || e
            == 116 {
            let val: u8 = if e == 34 {
                34
            } else if e == 92 {
                92
            } else if e == 47 {
                47
            } else if e == 98 {
                8
            } else if e == 102 {
                12
            } else if e == 110 {
                10
            } else if e == 114 {
                13
            } else {
                9
            };
            match d_str_rest(b, pos + 2) {
                Some((mut c, p)) => {
                    let ghost c0 = c@;
                    c.insert(0, val);
                    proof {
                        assert(c@ =~= seq![val] + c0);
                    }
                    Some((c, p))
                },
                None => None,
            }
        } else if e == 117 {
            if b.len() - pos < 6 {
                proof {
                    assert(sb.len() < 6);
                }
                return None;
            }
            proof {
                assert(sb[2] == b@[pos + 2 as int]);
                assert(sb[3] == b@[pos + 3 as int]);
                assert(sb[4] == b@[pos + 4 as int]);
                assert(sb[5] == b@[pos + 5 as int]);
                assert(sb.skip(6) =~= b@.skip(pos + 6 as int));
            }
            let h3 = d_hex(b[pos + 2]);
            let h2 = d_hex(b[pos + 3]);
            let h1 = d_hex(b[pos + 4]);
            let h0 = d_hex(b[pos + 5]);
            match (h3, h2, h1, h0) {
                (Some(x3), Some(x2), Some(x1), Some(x0)) => {
                    let v: u32 = (x3 as u32) * 4096 + (x2 as u32) * 256 + (x1 as u32) * 16 + (
                    x0 as u32);
                    if 0xD800 <= v && v <= 0xDFFF {
                        None
                    } else {
                        match d_str_rest(b, pos + 6) {
                            Some((mut c, p)) => {
                                let ghost c0 = c@;
                                if v < 0x80 {
                                    proof {
                                        assert(v & 0x7F == v) by (bit_vector)
                                            requires
                                                v < 0x80,
                                        ;
                                    }
                                    c.insert(0, v as u8);
                                    proof {
                                        assert(encode_scalar(v) =~= seq![v as u8]);
                                        assert(c@ =~= encode_scalar(v) + c0);
                                    }
                                } else if v < 0x800 {
                                    proof {
                                        assert(((v >> 6) & 0x1F) < 256 && (v & 0x3F)
                                            < 256) by (bit_vector);
                                    }
                                    let b2: u8 = 0x80u8 | ((v & 0x3F) as u8);
                                    let b1: u8 = 0xC0u8 | (((v >> 6) & 0x1F) as u8);
                                    c.insert(0, b2);
                                    c.insert(0, b1);
                                    proof {
                                        assert(encode_scalar(v) =~= seq![b1, b2]);
                                        assert(c@ =~= encode_scalar(v) + c0);
                                    }
                                } else {
                                    proof {
                                        assert(((v >> 12) & 0x0F) < 256 && ((v >> 6) & 0x3F) < 256
                                            && (v & 0x3F) < 256) by (bit_vector);
                                    }
                                    let b3: u8 = 0x80u8 | ((v & 0x3F) as u8);
                                    let b2: u8 = 0x80u8 | (((v >> 6) & 0x3F) as u8);
                                    let b1: u8 = 0xE0u8 | (((v >> 12) & 0x0F) as u8);
                                    c.insert(0, b3);
                                    c.insert(0, b2);
                                    c.insert(0, b1);
                                    proof {
                                        assert(encode_scalar(v) =~= seq![b1, b2, b3]);
                                        assert(c@ =~= encode_scalar(v) + c0);
                                    }
                                }
                                Some((c, p))
                            },
                            None => None,
                        }
                    }
                },
                _ => None,
            }
        } else {
            None
        }
    } else if x < 32 {
        None
    } else {
        match d_str_rest(b, pos + 1) {
            Some((mut c, p)) => {
                let ghost c0 = c@;
                c.insert(0, x);
                proof {
                    assert(c@ =~= seq![b@[pos as int]] + c0);
                }
                Some((c, p))
            },
            None => None,
        }
    }
}

#[verifier::spinoff_prover]
#[verifier::rlimit(100)]
pub(crate) fn d_string(b: &Vec<u8>, pos: usize) -> (r: Option<(String, usize)>)
    requires
        pos <= b@.len(),
    ensures
        match r {
            Some(p) => pos < p.1 <= b@.len() && parse_string(b@.skip(pos as int)) == Some(
                (p.0@, b@.skip(p.1 as int)),
            ),
            None => parse_string(b@.skip(pos as int)) is None,
        },
{
    let ghost sb = b@.skip(pos as int);
    if pos == b.len() {
        proof {
            assert(sb =~= Seq::<u8>::empty());
        }
        return None;
    }
    proof {
        assert(sb[0] == b@[pos as int]);
        assert(sb.drop_first() =~= b@.skip(pos + 1 as int));
    }
    if !(b[pos] == 34) {
        return None;
    }
    match d_str_rest(b, pos + 1) {
        Some((c, p)) => {
            match bytes_to_string(c) {
                Some(s) => Some((s, p)),
                None => None,
            }
        },
        None => None,
    }
}

#[verifier::spinoff_prover]
#[verifier::rlimit(100)]
fn d_strs_rest(b: &Vec<u8>, pos: usize, acc: Vec<String>) -> (r: Option<(Vec<String>, usize)>)
    requires
        pos <= b@.len(),
    ensures
        match r {
            Some(p) => pos < p.1 <= b@.len() && parse_strs_rest(b@.skip(pos as int), acc.deep_view())
                == Some((p.0.deep_view(), b@.skip(p.1 as int))),
            None => parse_strs_rest(b@.skip(pos as int), acc.deep_view()) is None,
        },
    decreases b@.len() - pos,
{
    let ghost sb = b@.skip(pos as int);
    let p0 = d_ws(b, pos);
    let ghost sb0 = b@.skip(p0 as int);
    if p0 == b.len() {
        proof {
            assert(sb0 =~= Seq::<u8>::empty());
        }
        return None;
    }
    proof {
        assert(sb0[0] == b@[p0 as int]);
        assert(sb0.drop_first() =~= b@.skip(p0 + 1 as int));
    }
    if b[p0] == 93 {
        Some((acc, p0 + 1))
    } else if b[p0] == 44 {
        let p1 = d_ws(b, p0 + 1);
        match d_string(b, p1) {
            Some((s, p2)) => {
                let ghost acc0 = acc.deep_view();
                let mut acc = acc;
                acc.push(s);
                proof {
                    assert(acc.deep_view() =~= acc0.push(acc.deep_view().last()));
                    assert(b@.skip(p2 as int).len() < sb.len());
                }
                d_strs_rest(b, p2, acc)
            },
            None => None,
        }
    } else {
        None
    }
}

#[verifier::spinoff_prover]
#[verifier::rlimit(100)]
fn d_strs(b: &Vec<u8>, pos: usize) -> (r: Option<(Vec<String>, usize)>)
    requires
        pos <= b@.len(),
    ensures
        match r {
            Some(p) => pos < p.1 <= b@.len() && parse_strs(b@.skip(pos as int)) == Some(
                (p.0.deep_view(), b@.skip(p.1 as int)),
            ),
            None => parse_strs(b@.skip(pos as int)) is None,
        },
{
    let ghost sb = b@.skip(pos as int);
    if pos == b.len() {
        proof {
            assert(sb =~= Seq::<u8>::empty());
        }
        return None;
    }
    proof {
        assert(sb[0] == b@[pos as int]);
        assert(sb.drop_first() =~= b@.skip(pos + 1 as int));
    }
    if !(b[pos] == 91) {
        return None;
    }
    let p1 = d_ws(b, pos + 1);
    let ghost sb1 = b@.skip(p1 as int);
    if p1 < b.len() && b[p1] == 93 {
        proof {
            assert(sb1[0] == b@[p1 as int]);
            assert(sb1.drop_first() =~= b@.skip(p1 + 1 as int));
        }
        let empty: Vec<String> = Vec::new();
        proof {
            assert(empty.deep_view() =~= Seq::<Seq<char>>::empty());
        }
        return Some((empty, p1 + 1));
    }
    proof {
        if p1 == b@.len() {
            assert(sb1 =~= Seq::<u8>::empty());
        } else {
            assert(sb1[0] == b@[p1 as int]);
        }
    }
    match d_string(b, p1) {
        Some((s, p2)) => {
            let mut acc: Vec<String> = Vec::new();
            acc.push(s);
            proof {
                assert(acc.deep_view() =~= seq![acc.deep_view()[0]]);
                assert(b@.skip(p2 as int).len() < sb.len());
            }
            d_strs_rest(b, p2, acc)
        },
        None => None,
    }
}

#[verifier::spinoff_prover]
#[verifier::rlimit(100)]
fn d_is_delim(x: u8) -> (r: bool)
    ensures
        r == is_delim(x),
{
    x == 44 || x == 125 || x == 93
}

fn d_ws(b: &Vec<u8>, pos: usize) -> (p: usize)
    requires
        pos <= b@.len(),
    ensures
        pos <= p <= b@.len() && ws_suffix(b@.skip(pos as int)) == b@.skip(p as int),
    decreases b@.len() - pos,
{
    let ghost sb = b@.skip(pos as int);
    if pos == b.len() {
        proof {
            assert(sb =~= Seq::<u8>::empty());
        }
        return pos;
    }
    proof {
        assert(sb[0] == b@[pos as int]);
        assert(sb.drop_first() =~= b@.skip(pos + 1 as int));
    }
    let x = b[pos];
    if x == 32 || x == 9 || x == 10 || x == 13 {
        d_ws(b, pos + 1)
    } else {
        pos
    }
}

#[verifier::spinoff_prover]
#[verifier::rlimit(100)]
fn d_skip_prim(b: &Vec<u8>, pos: usize) -> (p: usize)
    requires
        pos <= b@.len(),
    ensures
        pos <= p <= b@.len() && skip_prim(b@.skip(pos as int)) == b@.skip(p as int),
    decreases b@.len() - pos,
{
    let ghost sb = b@.skip(pos as int);
    if pos == b.len() {
        proof {
            assert(sb =~= Seq::<u8>::empty());
        }
        return pos;
    }
    proof {
        assert(sb[0] == b@[pos as int]);
        assert(sb.drop_first() =~= b@.skip(pos + 1 as int));
    }
    if !d_is_delim(b[pos]) {
        d_skip_prim(b, pos + 1)
    } else {
        pos
    }
}

#[verifier::spinoff_prover]
#[verifier::rlimit(100)]
fn d_skip_nested(b: &Vec<u8>, pos: usize, depth: usize) -> (r: Option<usize>)
    requires
        pos <= b@.len(),
        1 <= depth <= pos,
    ensures
        match r {
            Some(p) => pos < p <= b@.len() && skip_nested(b@.skip(pos as int), depth as int)
                == Some(b@.skip(p as int)),
            None => skip_nested(b@.skip(pos as int), depth as int) is None,
        },
    decreases b@.len() - pos,
{
    let ghost sb = b@.skip(pos as int);
    if pos == b.len() {
        proof {
            assert(sb =~= Seq::<u8>::empty());
        }
        return None;
    }
    proof {
        assert(sb[0] == b@[pos as int]);
        assert(sb.drop_first() =~= b@.skip(pos + 1 as int));
    }
    let x = b[pos];
    if x == 34 {
        match d_str_rest(b, pos + 1) {
            Some((_c, p2)) => {
                proof {
                    assert(b@.skip(p2 as int).len() < sb.len());
                }
                d_skip_nested(b, p2, depth)
            },
            None => None,
        }
    } else if x == 123 || x == 91 {
        d_skip_nested(b, pos + 1, depth + 1)
    } else if x == 125 || x == 93 {
        if depth == 1 {
            Some(pos + 1)
        } else {
            d_skip_nested(b, pos + 1, depth - 1)
        }
    } else {
        d_skip_nested(b, pos + 1, depth)
    }
}

#[verifier::spinoff_prover]
#[verifier::rlimit(100)]
fn d_skip_value(b: &Vec<u8>, pos: usize) -> (r: Option<usize>)
    requires
        pos <= b@.len(),
    ensures
        match r {
            Some(p) => pos < p <= b@.len() && skip_value(b@.skip(pos as int)) == Some(
                b@.skip(p as int),
            ),
            None => skip_value(b@.skip(pos as int)) is None,
        },
{
    let ghost sb = b@.skip(pos as int);
    if pos == b.len() {
        proof {
            assert(sb =~= Seq::<u8>::empty());
        }
        return None;
    }
    proof {
        assert(sb[0] == b@[pos as int]);
        assert(sb.drop_first() =~= b@.skip(pos + 1 as int));
    }
    let x = b[pos];
    if x == 34 {
        match d_str_rest(b, pos + 1) {
            Some((_c, p2)) => Some(p2),
            None => None,
        }
    } else if x == 123 || x == 91 {
        d_skip_nested(b, pos + 1, 1)
    } else if d_is_delim(x) {
        None
    } else {
        let p = d_skip_prim(b, pos + 1);
        Some(p)
    }
}

pub(crate) struct MetaAccE {
    pub(crate) id: Option<String>,
    pub(crate) name: Option<String>,
    pub(crate) description: Option<String>,
    pub(crate) version: Option<String>,
    pub(crate) authors: Option<Vec<String>>,
    pub(crate) url: Option<String>,
    pub(crate) update: Option<String>,
}

pub(crate) open spec fn macc_v(a: MetaAccE) -> MetaAcc {
    MetaAcc {
        id: a.id.deep_view(),
        name: a.name.deep_view(),
        description: a.description.deep_view(),
        version: a.version.deep_view(),
        authors: a.authors.deep_view(),
        url: a.url.deep_view(),
        update: a.update.deep_view(),
    }
}

#[verifier::spinoff_prover]
#[verifier::rlimit(100)]
fn d_meta_fields(b: &Vec<u8>, pos: usize, acc: MetaAccE) -> (r: Option<(Metadata, usize)>)
    requires
        pos <= b@.len(),
    ensures
        match r {
            Some(p) => pos < p.1 <= b@.len() && parse_meta_fields(b@.skip(pos as int), macc_v(acc))
                == Some((p.0@, b@.skip(p.1 as int))),
            None => parse_meta_fields(b@.skip(pos as int), macc_v(acc)) is None,
        },
    decreases b@.len() - pos,
{
    let ghost sb = b@.skip(pos as int);
    let ghost av = macc_v(acc);
    let key: String;
    let p1: usize;
    let pk = d_ws(b, pos);
    match d_string(b, pk) {
        Some((k, p)) => {
            key = k;
            p1 = p;
        },
        None => {
            return None;
        },
    }
    let p1c = d_ws(b, p1);
    let ghost sb1 = b@.skip(p1c as int);
    if p1c == b.len() {
        proof {
            assert(sb1 =~= Seq::<u8>::empty());
        }
        return None;
    }
    proof {
        assert(sb1[0] == b@[p1c as int]);
        assert(sb1.drop_first() =~= b@.skip(p1c + 1 as int));
    }
    if !(b[p1c] == 58) {
        return None;
    }
    let p2 = d_ws(b, p1c + 1);
    // parse the value into the accumulator, mirroring parse_meta_field_value
    let mut acc = acc;
    let p3: usize;
    proof {
        reveal_strlit("id");
        reveal_strlit("name");
        reveal_strlit("description");
        reveal_strlit("version");
        reveal_strlit("authors");
        reveal_strlit("url");
        reveal_strlit("update");
        assert("id"@ =~= k_id());
        assert("name"@ =~= k_name());
        assert("description"@ =~= k_description());
        assert("version"@ =~= k_version());
        assert("authors"@ =~= k_authors());
        assert("url"@ =~= k_url());
        assert("update"@ =~= k_update());
    }
    if key == String::from_str("id") {
        match d_string(b, p2) {
            Some((v, p)) => {
                acc.id = Some(v);
                p3 = p;
            },
            None => {
                return None;
            },
        }
    } else if key == String::from_str("name") {
        match d_string(b, p2) {
            Some((v, p)) => {
                acc.name = Some(v);
                p3 = p;
            },
            None => {
                return None;
            },
        }
    } else if key == String::from_str("description") {
        match d_string(b, p2) {
            Some((v, p)) => {
                acc.description = Some(v);
                p3 = p;
            },
            None => {
                return None;
            },
        }
    } else if key == String::from_str("version") {
        match d_string(b, p2) {
            Some((v, p)) => {
                acc.version = Some(v);
                p3 = p;
            },
            None => {
                return None;
            },
        }
    } else if key == String::from_str("authors") {
        match d_strs(b, p2) {
            Some((v, p)) => {
                acc.authors = Some(v);
                p3 = p;
            },
            None => {
                return None;
            },
        }
    } else if key == String::from_str("url") {
        match d_string(b, p2) {
            Some((v, p)) => {
                acc.url = Some(v);
                p3 = p;
            },
            None => {
                return None;
            },
        }
    } else if key == String::from_str("update") {
        match d_string(b, p2) {
            Some((v, p)) => {
                acc.update = Some(v);
                p3 = p;
            },
            None => {
                return None;
            },
        }
    } else {
        match d_skip_value(b, p2) {
            Some(p) => {
                p3 = p;
            },
            None => {
                return None;
            },
        }
    }
    proof {
        assert(parse_meta_field_value(b@.skip(p2 as int), key@, av) == Some(
            (macc_v(acc), b@.skip(p3 as int)),
        ));
    }
    let p3w = d_ws(b, p3);
    proof {
        assert(b@.skip(p3w as int).len() < sb.len());
    }
    let ghost sb3 = b@.skip(p3w as int);
    if p3w == b.len() {
        proof {
            assert(sb3 =~= Seq::<u8>::empty());
        }
        return None;
    }
    proof {
        assert(sb3[0] == b@[p3w as int]);
        assert(sb3.drop_first() =~= b@.skip(p3w + 1 as int));
    }
    if b[p3w] == 44 {
        d_meta_fields(b, p3w + 1, acc)
    } else if b[p3w] == 125 {
        let ghost accv = macc_v(acc);
        match (acc.id, acc.name, acc.description, acc.version, acc.authors, acc.url) {
            (Some(id), Some(name), Some(description), Some(version), Some(authors), Some(url)) => {
                let update = match acc.update {
                    Some(u) => u,
                    None => String::new(),
                };
                let m = Metadata { id, name, description, version, authors, url, update };
                proof {
                    assert(finish_meta(accv) == Some(m@));
                }
                Some((m, p3w + 1))
            },
            _ => {
                proof {
                    assert(finish_meta(accv) is None);
                }
                None
            },
        }
    } else {
        None
    }
}

#[verifier::spinoff_prover]
#[verifier::rlimit(100)]
fn d_metadata(b: &Vec<u8>, pos: usize) -> (r: Option<(Metadata, usize)>)
    requires
        pos <= b@.len(),
    ensures
        match r {
            Some(p) => pos < p.1 <= b@.len() && parse_metadata(b@.skip(pos as int)) == Some(
                (p.0@, b@.skip(p.1 as int)),
            ),
            None => parse_metadata(b@.skip(pos as int)) is None,
        },
{
    let ghost sb = b@.skip(pos as int);
    if pos == b.len() {
        proof {
            assert(sb =~= Seq::<u8>::empty());
        }
        return None;
    }
    proof {
        assert(sb[0] == b@[pos as int]);
        assert(sb.drop_first() =~= b@.skip(pos + 1 as int));
    }
    if !(b[pos] == 123) {
        return None;
    }
    let acc = MetaAccE {
        id: None,
        name: None,
        description: None,
        version: None,
        authors: None,
        url: None,
        update: None,
    };
    proof {
        assert(macc_v(acc) == empty_meta_acc());
    }
    d_meta_fields(b, pos + 1, acc)
}

struct ItemAccE {
    sha256: Option<String>,
    last_update_time: Option<String>,
    files: Option<Vec<String>>,
    from: Option<String>,
    metadata: Option<Option<Metadata>>,
}

spec fn iacc_v(a: ItemAccE) -> ItemAcc {
    ItemAcc {
        sha256: a.sha256.deep_view(),
        last_update_time: a.last_update_time.deep_view(),
        files: a.files.deep_view(),
        from: a.from.deep_view(),
        metadata: match a.metadata {
            Some(Some(m)) => Some(Some(m@)),
            Some(None) => Some(None),
            None => None,
        },
    }
}

#[verifier::spinoff_prover]
#[verifier::rlimit(100)]
fn d_item_value(b: &Vec<u8>, pos: usize, key: &String, acc: ItemAccE) -> (r: Option<
    (ItemAccE, usize)>)
    requires
        pos <= b@.len(),
    ensures
        match r {
            Some(p) => pos < p.1 <= b@.len() && parse_item_field_value(
                b@.skip(pos as int),
                key@,
                iacc_v(acc),
            ) == Some((iacc_v(p.0), b@.skip(p.1 as int))),
            None => parse_item_field_value(b@.skip(pos as int), key@, iacc_v(acc)) is None,
        },
{
    let ghost av = iacc_v(acc);
    let mut acc = acc;
    let p3: usize;
    proof {
        reveal_strlit("sha256");
        reveal_strlit("last_update_time");
        reveal_strlit("files");
        reveal_strlit("from");
        reveal_strlit("metadata");
        assert("sha256"@ =~= k_sha256());
        assert("last_update_time"@ =~= k_last_update_time());
        assert("files"@ =~= k_files());
        assert("from"@ =~= k_from());
        assert("metadata"@ =~= k_metadata());
    }
    if *key == String::from_str("sha256") {
        match d_string(b, pos) {
            Some((v, p)) => {
                acc.sha256 = Some(v);
                p3 = p;
            },
            None => {
                return None;
            },
        }
    } else if *key == String::from_str("last_update_time") {
        match d_string(b, pos) {
            Some((v, p)) => {
                acc.last_update_time = Some(v);
                p3 = p;
            },
            None => {
                return None;
            },
        }
    } else if *key == String::from_str("files") {
        match d_strs(b, pos) {
            Some((v, p)) => {
                acc.files = Some(v);
                p3 = p;
            },
            None => {
                return None;
            },
        }
    } else if *key == String::from_str("from") {
        match d_string(b, pos) {
            Some((v, p)) => {
                acc.from = Some(v);
                p3 = p;
            },
            None => {
                return None;
            },
        }
    } else if *key == String::from_str("metadata") {
        let ghost sb2 = b@.skip(pos as int);
        let is_null = b.len() - pos >= 4 && b[pos] == 110 && b[pos + 1] == 117 && b[pos + 2] == 108
            && b[pos + 3] == 108;
        proof {
            if b@.len() - pos >= 4 {
                assert(sb2.subrange(0, 4) =~= seq![
                    b@[pos as int],
                    b@[pos + 1 as int],
                    b@[pos + 2 as int],
                    b@[pos + 3 as int],
                ]);
            }
            assert(is_null == (sb2.len() >= 4 && sb2.subrange(0, 4) == null_bytes()));
        }
        if is_null {
            acc.metadata = Some(None);
            p3 = pos + 4;
            proof {
                assert(sb2.skip(4) =~= b@.skip(p3 as int));
            }
        } else {
            match d_metadata(b, pos) {
                Some((m, p)) => {
                    acc.metadata = Some(Some(m));
                    p3 = p;
                },
                None => {
                    return None;
                },
            }
        }
    } else {
        match d_skip_value(b, pos) {
            Some(p) => {
                p3 = p;
            },
            None => {
                return None;
            },
        }
    }
    proof {
        assert(parse_item_field_value(b@.skip(pos as int), key@, av) == Some(
            (iacc_v(acc), b@.skip(p3 as int)),
        ));
    }
    Some((acc, p3))
}

#[verifier::spinoff_prover]
#[verifier::rlimit(100)]
fn d_item_fields(b: &Vec<u8>, pos: usize, acc: ItemAccE) -> (r: Option<(RecordItem, usize)>)
    requires
        pos <= b@.len(),
    ensures
        match r {
            Some(p) => pos < p.1 <= b@.len() && parse_item_fields(b@.skip(pos as int), iacc_v(acc))
                == Some((p.0@, b@.skip(p.1 as int))),
            None => parse_item_fields(b@.skip(pos as int), iacc_v(acc)) is None,
        },
    decreases b@.len() - pos,
{
    let ghost sb = b@.skip(pos as int);
    let ghost av = iacc_v(acc);
    let key: String;
    let p1: usize;
    let pk = d_ws(b, pos);
    match d_string(b, pk) {
        Some((k, p)) => {
            key = k;
            p1 = p;
        },
        None => {
            return None;
        },
    }
    let p1c = d_ws(b, p1);
    let ghost sb1 = b@.skip(p1c as int);
    if p1c == b.len() {
        proof {
            assert(sb1 =~= Seq::<u8>::empty());
        }
        return None;
    }
    proof {
        assert(sb1[0] == b@[p1c as int]);
        assert(sb1.drop_first() =~= b@.skip(p1c + 1 as int));
    }
    if !(b[p1c] == 58) {
        return None;
    }
    let p2 = d_ws(b, p1c + 1);
    let acc = acc;
    let p3: usize;
    let acc2: ItemAccE;
    match d_item_value(b, p2, &key, acc) {
        Some((a2, p)) => {
            acc2 = a2;
            p3 = p;
        },
        None => {
            return None;
        },
    }
    let acc = acc2;
    let p3w = d_ws(b, p3);
    proof {
        assert(b@.skip(p3w as int).len() < sb.len());
    }
    let ghost sb3 = b@.skip(p3w as int);
    if p3w == b.len() {
        proof {
            assert(sb3 =~= Seq::<u8>::empty());
        }
        return None;
    }
    proof {
        assert(sb3[0] == b@[p3w as int]);
        assert(sb3.drop_first() =~= b@.skip(p3w + 1 as int));
    }
    if b[p3w] == 44 {
        d_item_fields(b, p3w + 1, acc)
    } else if b[p3w] == 125 {
        let ghost accv = iacc_v(acc);
        match (acc.sha256, acc.last_update_time, acc.files, acc.from) {
            (Some(sha256), Some(last_update_time), Some(files), Some(from)) => {
                let metadata = match acc.metadata {
                    Some(m) => m,
                    None => None,
                };
                let it = RecordItem { sha256, last_update_time, files, from, metadata };
                proof {
                    assert(finish_item(accv) == Some(it@));
                }
                Some((it, p3w + 1))
            },
            _ => {
                proof {
                    assert(finish_item(accv) is None);
                }
                None
            },
        }
    } else {
        None
    }
}

#[verifier::spinoff_prover]
#[verifier::rlimit(100)]
fn d_item(b: &Vec<u8>, pos: usize) -> (r: Option<(RecordItem, usize)>)
    requires
        pos <= b@.len(),
    ensures
        match r {
            Some(p) => pos < p.1 <= b@.len() && parse_item(b@.skip(pos as int)) == Some(
                (p.0@, b@.skip(p.1 as int)),
            ),
            None => parse_item(b@.skip(pos as int)) is None,
        },
{
    let ghost sb = b@.skip(pos as int);
    if pos == b.len() {
        proof {
            assert(sb =~= Seq::<u8>::empty());
        }
        return None;
    }
    proof {
        assert(sb[0] == b@[pos as int]);
        assert(sb.drop_first() =~= b@.skip(pos + 1 as int));
    }
    if !(b[pos] == 123) {
        return None;
    }
    let acc = ItemAccE { sha256: None, last_update_time: None, files: None, from: None, metadata: None };
    proof {
        assert(iacc_v(acc) == empty_item_acc());
    }
    d_item_fields(b, pos + 1, acc)
}

/// The view sequence of owned record entries.
pub open spec fn entries_v(s: Seq<(String, RecordItem)>) -> Seq<(Seq<char>, RecordItemV)> {
    s.map_values(|p: (String, RecordItem)| (p.0@, p.1@))
}

#[verifier::spinoff_prover]
#[verifier::rlimit(100)]
fn entries_contain_id(acc: &Vec<(String, RecordItem)>, id: &String) -> (r: bool)
    ensures
        r == exists|i: int| 0 <= i < acc@.len() && #[trigger] entries_v(acc@)[i].0 == id@,
{
    let mut i: usize = 0;
    while i < acc.len()
        invariant
            i <= acc.len(),
            forall|j: int| 0 <= j < i ==> #[trigger] entries_v(acc@)[j].0 != id@,
        decreases acc.len() - i,
    {
        if acc[i].0 == *id {
            proof {
                assert(entries_v(acc@)[i as int].0 == id@);
            }
            return true;
        }
        i = i + 1;
    }
    false
}

#[verifier::rlimit(100)]
#[verifier::spinoff_prover]
fn d_entries_fields(b: &Vec<u8>, pos: usize, acc: Vec<(String, RecordItem)>) -> (r: Option<
    (Vec<(String, RecordItem)>, usize)>)
    requires
        pos <= b@.len(),
    ensures
        match r {
            Some(p) => pos < p.1 <= b@.len() && parse_entries_fields(
                b@.skip(pos as int),
                entries_v(acc@),
            ) == Some((entries_v(p.0@), b@.skip(p.1 as int))),
            None => parse_entries_fields(b@.skip(pos as int), entries_v(acc@)) is None,
        },
    decreases b@.len() - pos,
{
    let ghost sb = b@.skip(pos as int);
    let ghost av = entries_v(acc@);
    let key: String;
    let p1: usize;
    let pk = d_ws(b, pos);
    match d_string(b, pk) {
        Some((k, p)) => {
            key = k;
            p1 = p;
        },
        None => {
            return None;
        },
    }
    let p1c = d_ws(b, p1);
    let ghost sb1 = b@.skip(p1c as int);
    if p1c == b.len() {
        proof {
            assert(sb1 =~= Seq::<u8>::empty());
        }
        return None;
    }
    proof {
        assert(sb1[0] == b@[p1c as int]);
        assert(sb1.drop_first() =~= b@.skip(p1c + 1 as int));
    }
    if !(b[p1c] == 58) {
        return None;
    }
    let pv = d_ws(b, p1c + 1);
    match d_item(b, pv) {
        Some((it, p3)) => {
            if entries_contain_id(&acc, &key) {
                return None;
            }
            let mut acc = acc;
            let ghost itv = it@;
            acc.push((key, it));
            proof {
                assert(entries_v(acc@) =~= av.push((entries_v(acc@).last().0, itv)));
            }
            let p3w = d_ws(b, p3);
            let ghost sb3 = b@.skip(p3w as int);
            proof {
                assert(sb3.len() < sb.len());
            }
            if p3w == b.len() {
                proof {
                    assert(sb3 =~= Seq::<u8>::empty());
                }
                return None;
            }
            proof {
                assert(sb3[0] == b@[p3w as int]);
                assert(sb3.drop_first() =~= b@.skip(p3w + 1 as int));
            }
            if b[p3w] == 44 {
                d_entries_fields(b, p3w + 1, acc)
            } else if b[p3w] == 125 {
                Some((acc, p3w + 1))
            } else {
                None
            }
        },
        None => None,
    }
}

#[verifier::spinoff_prover]
#[verifier::rlimit(100)]
fn d_installed(b: &Vec<u8>, pos: usize) -> (r: Option<(Vec<(String, RecordItem)>, usize)>)
    requires
        pos <= b@.len(),
    ensures
        match r {
            Some(p) => pos < p.1 <= b@.len() && parse_installed(b@.skip(pos as int)) == Some(
                (entries_v(p.0@), b@.skip(p.1 as int)),
            ),
            None => parse_installed(b@.skip(pos as int)) is None,
        },
{
    let ghost sb = b@.skip(pos as int);
    if pos == b.len() {
        proof {
            assert(sb =~= Seq::<u8>::empty());
        }
        return None;
    }
    proof {
        assert(sb[0] == b@[pos as int]);
        assert(sb.drop_first() =~= b@.skip(pos + 1 as int));
    }
    if !(b[pos] == 123) {
        return None;
    }
    let p1 = d_ws(b, pos + 1);
    if p1 < b.len() && b[p1] == 125 {
        proof {
            assert(b@.skip(p1 as int)[0] == b@[p1 as int]);
            assert(b@.skip(p1 as int).drop_first() =~= b@.skip(p1 + 1 as int));
        }
        let empty: Vec<(String, RecordItem)> = Vec::new();
        proof {
            assert(entries_v(empty@) =~= Seq::<(Seq<char>, RecordItemV)>::empty());
        }
        return Some((empty, p1 + 1));
    }
    let empty: Vec<(String, RecordItem)> = Vec::new();
    proof {
        assert(entries_v(empty@) =~= Seq::<(Seq<char>, RecordItemV)>::empty());
        if b@.skip(p1 as int).len() > 0 {
            assert(b@.skip(p1 as int)[0] == b@[p1 as int]);
        } else {
            assert(b@.skip(p1 as int) =~= Seq::<u8>::empty());
        }
    }
    d_entries_fields(b, p1, empty)
}

#[verifier::rlimit(100)]
#[verifier::spinoff_prover]
fn d_rec_fields(b: &Vec<u8>, pos: usize, acc: Option<Vec<(String, RecordItem)>>) -> (r: Option<
    (Record, usize)>)
    requires
        pos <= b@.len(),
    ensures
        match r {
            Some(p) => pos < p.1 <= b@.len() && parse_rec_fields(b@.skip(pos as int), match acc {
                Some(ref v) => Some(entries_v(v@)),
                None => None,
            }) == Some((p.0@, b@.skip(p.1 as int))),
            None => parse_rec_fields(b@.skip(pos as int), match acc {
                Some(ref v) => Some(entries_v(v@)),
                None => None,
            }) is None,
        },
    decreases b@.len() - pos,
{
    let ghost sb = b@.skip(pos as int);
    let ghost av: Option<Seq<(Seq<char>, RecordItemV)>> = match acc {
        Some(ref v) => Some(entries_v(v@)),
        None => None,
    };
    let key: String;
    let p1: usize;
    let pk = d_ws(b, pos);
    match d_string(b, pk) {
        Some((k, p)) => {
            key = k;
            p1 = p;
        },
        None => {
            return None;
        },
    }
    let p1c = d_ws(b, p1);
    let ghost sb1 = b@.skip(p1c as int);
    if p1c == b.len() {
        proof {
            assert(sb1 =~= Seq::<u8>::empty());
        }
        return None;
    }
    proof {
        assert(sb1[0] == b@[p1c as int]);
        assert(sb1.drop_first() =~= b@.skip(p1c + 1 as int));
    }
    if !(b[p1c] == 58) {
        return None;
    }
    let p2 = d_ws(b, p1c + 1);
    proof {
        reveal_strlit("installed");
        assert("installed"@ =~= k_installed());
    }
    let mut acc = acc;
    let p3: usize;
    if key == String::from_str("installed") {
        match d_installed(b, p2) {
            Some((v, p)) => {
                acc = Some(v);
                p3 = p;
            },
            None => {
                return None;
            },
        }
    } else {
        match d_skip_value(b, p2) {
            Some(p) => {
                p3 = p;
            },
            None => {
                return None;
            },
        }
    }
    let ghost av2: Option<Seq<(Seq<char>, RecordItemV)>> = match acc {
        Some(ref v) => Some(entries_v(v@)),
        None => None,
    };
    let p3w = d_ws(b, p3);
    proof {
        assert(b@.skip(p3w as int).len() < sb.len());
    }
    let ghost sb3 = b@.skip(p3w as int);
    if p3w == b.len() {
        proof {
            assert(sb3 =~= Seq::<u8>::empty());
        }
        return None;
    }
    proof {
        assert(sb3[0] == b@[p3w as int]);
        assert(sb3.drop_first() =~= b@.skip(p3w + 1 as int));
    }
    if b[p3w] == 44 {
        d_rec_fields(b, p3w + 1, acc)
    } else if b[p3w] == 125 {
        match acc {
            Some(entries) => {
                let rec = Record { installed: entries };
                proof {
                    assert(rec@.installed =~= av2->Some_0);
                }
                Some((rec, p3w + 1))
            },
            None => None,
        }
    } else {
        None
    }
}

#[verifier::spinoff_prover]
#[verifier::rlimit(100)]
fn d_record(b: &Vec<u8>, pos: usize) -> (r: Option<(Record, usize)>)
    requires
        pos <= b@.len(),
    ensures
        match r {
            Some(p) => pos < p.1 <= b@.len() && parse_record(b@.skip(pos as int)) == Some(
                (p.0@, b@.skip(p.1 as int)),
            ),
            None => parse_record(b@.skip(pos as int)) is None,
        },
{
    let ghost sb = b@.skip(pos as int);
    let p0 = d_ws(b, pos);
    let ghost sb0 = b@.skip(p0 as int);
    if p0 == b.len() {
        proof {
            assert(sb0 =~= Seq::<u8>::empty());
        }
        return None;
    }
    proof {
        assert(sb0[0] == b@[p0 as int]);
        assert(sb0.drop_first() =~= b@.skip(p0 + 1 as int));
    }
    if !(b[p0] == 123) {
        return None;
    }
    d_rec_fields(b, p0 + 1, None)
}

// ---------------------------------------------------------------------------
// Round trip: decoding what the encoder wrote gives the record back.
// ---------------------------------------------------------------------------
#[verifier::spinoff_prover]
#[verifier::rlimit(100)]
proof fn lemma_rt_str_rest(cs: Seq<u8>, rest: Seq<u8>)
    ensures
        parse_str_rest(escape_bytes(cs) + seq![34u8] + rest) == Some((cs, rest)),
    decreases cs.len(),
{
    let b = escape_bytes(cs) + seq![34u8] + rest;
    if cs.len() == 0 {
        assert(escape_bytes(cs) =~= Seq::<u8>::empty());
        assert(b =~= seq![34u8] + rest);
        assert(b[0] == 34);
        assert(b.drop_first() =~= rest);
        assert(cs =~= Seq::<u8>::empty());
    } else {
        let x = cs[0];
        let tail = cs.drop_first();
        lemma_rt_str_rest(tail, rest);
        let b_tail = escape_bytes(tail) + seq![34u8] + rest;
        assert(escape_bytes(cs) == escape_byte(x) + escape_bytes(tail));
        if x == 34 {
            assert(b =~= seq![92u8, 34u8] + b_tail);
            assert(b[0] == 92 && b[1] == 34);
            assert(b.skip(2) =~= b_tail);
            assert(seq![x] + tail =~= cs);
        } else if x == 92 {
            assert(b =~= seq![92u8, 92u8] + b_tail);
            assert(b[0] == 92 && b[1] == 92);
            assert(b.skip(2) =~= b_tail);
            assert(seq![x] + tail =~= cs);
        } else if x < 32 {
            let hi = x as int / 16;
            let lo = x as int % 16;
            assert(b =~= seq![92u8, 117u8, 48u8, 48u8, hex_digit(hi), hex_digit(lo)] + b_tail);
            assert(b[0] == 92 && b[1] == 117);
            assert(b.len() >= 6);
            assert(b[2] == 48 && b[3] == 48 && b[4] == hex_digit(hi) && b[5] == hex_digit(lo));
            assert(hex_val(48) == Some(0int));
            assert(0 <= hi <= 1 && 0 <= lo <= 15);
            assert(hex_val(hex_digit(hi)) == Some(hi));
            assert(hex_val(hex_digit(lo)) == Some(lo));
            let v = 0 * 4096 + 0 * 256 + hi * 16 + lo;
            assert(v == x as int);
            assert(!(0xD800 <= v <= 0xDFFF));
            assert(b.skip(6) =~= b_tail);
            let xv: u32 = x as u32;
            assert(xv & 0x7F == xv) by (bit_vector)
                requires
                    xv < 32,
            ;
            assert(encode_scalar(v as u32) =~= seq![x]);
            assert(seq![x] + tail =~= cs);
        } else {
            assert(b =~= seq![x] + b_tail);
            assert(b[0] == x);
            assert(!(x == 34) && !(x == 92) && !(x < 32));
            assert(b.drop_first() =~= b_tail);
            assert(seq![x] + tail =~= cs);
        }
    }
}

#[verifier::spinoff_prover]
#[verifier::rlimit(100)]
proof fn lemma_rt_string(s: Seq<char>, rest: Seq<u8>)
    ensures
        parse_string(enc_str(s) + rest) == Some((s, rest)),
{
    let cs = encode_utf8(s);
    lemma_rt_str_rest(cs, rest);
    let b = enc_str(s) + rest;
    assert(b =~= seq![34u8] + (escape_bytes(cs) + seq![34u8] + rest));
    assert(b[0] == 34);
    assert(b.drop_first() =~= escape_bytes(cs) + seq![34u8] + rest);
    vstd::utf8::encode_utf8_valid_utf8(s);
    vstd::utf8::encode_utf8_decode_utf8(s);
}

#[verifier::spinoff_prover]
#[verifier::rlimit(100)]
proof fn lemma_rt_more_strs(l: Seq<Seq<char>>, acc: Seq<Seq<char>>, rest: Seq<u8>)
    ensures
        parse_strs_rest(enc_more_strs(l) + seq![93u8] + rest, acc) == Some((acc + l, rest)),
    decreases l.len(),
{
    let b = enc_more_strs(l) + seq![93u8] + rest;
    if l.len() == 0 {
        assert(enc_more_strs(l) =~= Seq::<u8>::empty());
        assert(b =~= seq![93u8] + rest);
        assert(b[0] == 93);
        assert(ws_suffix(b) == b);
        assert(b.drop_first() =~= rest);
        assert(acc + l =~= acc);
    } else {
        let s0 = l[0];
        let tail = l.drop_first();
        let t2 = enc_more_strs(tail) + seq![93u8] + rest;
        assert(enc_more_strs(l) == seq![44u8] + enc_str(s0) + enc_more_strs(tail));
        assert(b =~= seq![44u8] + (enc_str(s0) + t2));
        assert(b[0] == 44);
        assert(ws_suffix(b) == b);
        assert(b.drop_first() =~= enc_str(s0) + t2);
        assert((enc_str(s0) + t2)[0] == 34);
        assert(ws_suffix(enc_str(s0) + t2) == enc_str(s0) + t2);
        lemma_rt_string(s0, t2);
        assert(t2.len() < b.len());
        lemma_rt_more_strs(tail, acc.push(s0), rest);
        assert(acc.push(s0) + tail =~= acc + l);
    }
}

#[verifier::spinoff_prover]
#[verifier::rlimit(100)]
proof fn lemma_rt_strs(l: Seq<Seq<char>>, rest: Seq<u8>)
    ensures
        parse_strs(enc_strs(l) + rest) == Some((l, rest)),
{
    let b = enc_strs(l) + rest;
    assert(b =~= seq![91u8] + (enc_strs_items(l) + seq![93u8] + rest));
    assert(b[0] == 91);
    let b1 = enc_strs_items(l) + seq![93u8] + rest;
    assert(b.drop_first() =~= b1);
    if l.len() == 0 {
        assert(enc_strs_items(l) =~= Seq::<u8>::empty());
        assert(b1 =~= seq![93u8] + rest);
        assert(b1[0] == 93);
        assert(ws_suffix(b1) == b1);
        assert(b1.drop_first() =~= rest);
        assert(l =~= Seq::<Seq<char>>::empty());
    } else {
        let t2 = enc_more_strs(l.drop_first()) + seq![93u8] + rest;
        assert(b1 =~= enc_str(l[0]) + t2);
        assert(b1[0] == 34);
        assert(ws_suffix(b1) == b1);
        lemma_rt_string(l[0], t2);
        assert(t2.len() < b.len());
        lemma_rt_more_strs(l.drop_first(), seq![l[0]], rest);
        assert(seq![l[0]] + l.drop_first() =~= l);
    }
}

#[verifier::spinoff_prover]
#[verifier::rlimit(100)]
proof fn lemma_enc_metadata_head(m: MetadataV)
    ensures
        enc_metadata(m).len() > 0,
        enc_metadata(m)[0] == 123,
{
    reveal(enc_metadata);
    assert(enc_metadata(m)[0] == 123);
}

#[verifier::spinoff_prover]
#[verifier::rlimit(100)]
proof fn lemma_enc_item_head(it: RecordItemV)
    ensures
        enc_item(it).len() > 0,
        enc_item(it)[0] == 123,
{
    reveal(enc_item);
    assert(enc_item(it)[0] == 123);
}

/// One field step of the descriptor parser: parse the key, the colon, the
/// value, then a comma, and continue with the updated accumulator.
#[verifier::spinoff_prover]
#[verifier::rlimit(100)]
proof fn lemma_meta_field_step(
    key: Seq<char>,
    venc: Seq<u8>,
    acc: MetaAcc,
    acc2: MetaAcc,
    t2: Seq<u8>,
)
    requires
        venc.len() > 0 && !is_ws(venc[0]),
        parse_meta_field_value(venc + (seq![44u8] + t2), key, acc) == Some((acc2, seq![44u8] + t2)),
    ensures
        parse_meta_fields(enc_str(key) + seq![58u8] + venc + seq![44u8] + t2, acc)
            == parse_meta_fields(t2, acc2),
{
    let b = enc_str(key) + seq![58u8] + venc + seq![44u8] + t2;
    let b1 = seq![58u8] + (venc + (seq![44u8] + t2));
    assert(b =~= enc_str(key) + b1);
    assert(b[0] == 34);
    assert(ws_suffix(b) == b);
    lemma_rt_string(key, b1);
    assert(b1[0] == 58);
    assert(ws_suffix(b1) == b1);
    assert(b1.drop_first() =~= venc + (seq![44u8] + t2));
    assert((venc + (seq![44u8] + t2))[0] == venc[0]);
    assert(ws_suffix(venc + (seq![44u8] + t2)) == venc + (seq![44u8] + t2));
    let b3 = seq![44u8] + t2;
    assert(b3.len() < b.len());
    assert(b3[0] == 44);
    assert(ws_suffix(b3) == b3);
    assert(b3.drop_first() =~= t2);
}

/// The last field step of the descriptor parser: after the value a closing
/// brace finishes the object.
#[verifier::spinoff_prover]
#[verifier::rlimit(100)]
proof fn lemma_meta_field_end(
    key: Seq<char>,
    venc: Seq<u8>,
    acc: MetaAcc,
    acc2: MetaAcc,
    rest: Seq<u8>,
)
    requires
        venc.len() > 0 && !is_ws(venc[0]),
        parse_meta_field_value(venc + (seq![125u8] + rest), key, acc) == Some(
            (acc2, seq![125u8] + rest),
        ),
    ensures
        parse_meta_fields(enc_str(key) + seq![58u8] + venc + seq![125u8] + rest, acc) == match finish_meta(
            acc2,
        ) {
            Some(m) => Some((m, rest)),
            None => None,
        },
{
    let b = enc_str(key) + seq![58u8] + venc + seq![125u8] + rest;
    let b1 = seq![58u8] + (venc + (seq![125u8] + rest));
    assert(b =~= enc_str(key) + b1);
    assert(b[0] == 34);
    assert(ws_suffix(b) == b);
    lemma_rt_string(key, b1);
    assert(b1[0] == 58);
    assert(ws_suffix(b1) == b1);
    assert(b1.drop_first() =~= venc + (seq![125u8] + rest));
    assert((venc + (seq![125u8] + rest))[0] == venc[0]);
    assert(ws_suffix(venc + (seq![125u8] + rest)) == venc + (seq![125u8] + rest));
    let b3 = seq![125u8] + rest;
    assert(b3.len() < b.len());
    assert(b3[0] == 125);
    assert(ws_suffix(b3) == b3);
    assert(b3.drop_first() =~= rest);
}

spec fn meta_acc_after3(m: MetadataV) -> MetaAcc {
    MetaAcc {
        id: Some(m.id),
        name: Some(m.name),
        description: Some(m.description),
        version: None,
        authors: None,
        url: None,
        update: None,
    }
}

spec fn meta_tail_bytes(m: MetadataV, rest: Seq<u8>) -> Seq<u8> {
    enc_str(k_version()) + seq![58u8] + enc_str(m.version) + seq![44u8] + (enc_str(k_authors())
        + seq![58u8] + enc_strs(m.authors) + seq![44u8] + (enc_str(k_url()) + seq![58u8] + enc_str(
        m.url,
    ) + seq![44u8] + (enc_str(k_update()) + seq![58u8] + enc_str(m.update) + seq![125u8] + rest)))
}

#[verifier::spinoff_prover]
#[verifier::rlimit(100)]
proof fn lemma_rt_metadata_tail(m: MetadataV, rest: Seq<u8>, acc3: MetaAcc)
    requires
        acc3 == meta_acc_after3(m),
    ensures
        parse_meta_fields(meta_tail_bytes(m, rest), acc3) == Some((m, rest)),
{
    let b7 = enc_str(k_update()) + seq![58u8] + enc_str(m.update) + seq![125u8] + rest;
    let b6 = enc_str(k_url()) + seq![58u8] + enc_str(m.url) + seq![44u8] + b7;
    let b5 = enc_str(k_authors()) + seq![58u8] + enc_strs(m.authors) + seq![44u8] + b6;
    let acc4 = MetaAcc { version: Some(m.version), ..acc3 };
    let acc5 = MetaAcc { authors: Some(m.authors), ..acc4 };
    let acc6 = MetaAcc { url: Some(m.url), ..acc5 };
    let acc7 = MetaAcc { update: Some(m.update), ..acc6 };
    assert(enc_str(m.version)[0] == 34);
    lemma_rt_string(m.version, seq![44u8] + b5);
    lemma_meta_field_step(k_version(), enc_str(m.version), acc3, acc4, b5);
    assert(enc_strs(m.authors)[0] == 91);
    lemma_rt_strs(m.authors, seq![44u8] + b6);
    lemma_meta_field_step(k_authors(), enc_strs(m.authors), acc4, acc5, b6);
    assert(enc_str(m.url)[0] == 34);
    lemma_rt_string(m.url, seq![44u8] + b7);
    lemma_meta_field_step(k_url(), enc_str(m.url), acc5, acc6, b7);
    assert(enc_str(m.update)[0] == 34);
    lemma_rt_string(m.update, seq![125u8] + rest);
    lemma_meta_field_end(k_update(), enc_str(m.update), acc6, acc7, rest);
    assert(finish_meta(acc7) == Some(m));
    assert(meta_tail_bytes(m, rest) =~= enc_str(k_version()) + seq![58u8] + enc_str(m.version)
        + seq![44u8] + b5);
}

spec fn meta_body_bytes(m: MetadataV, rest: Seq<u8>) -> Seq<u8> {
    enc_str(k_id()) + seq![58u8] + enc_str(m.id) + seq![44u8] + (enc_str(k_name()) + seq![58u8]
        + enc_str(m.name) + seq![44u8] + (enc_str(k_description()) + seq![58u8] + enc_str(
        m.description,
    ) + seq![44u8] + meta_tail_bytes(m, rest)))
}

#[verifier::spinoff_prover]
#[verifier::rlimit(100)]
proof fn lemma_enc_metadata_shape(m: MetadataV, rest: Seq<u8>)
    ensures
        enc_metadata(m) + rest == seq![123u8] + meta_body_bytes(m, rest),
{
    reveal(enc_metadata);
    assert(enc_metadata(m) + rest =~= seq![123u8] + meta_body_bytes(m, rest));
}

#[verifier::spinoff_prover]
#[verifier::rlimit(100)]
proof fn lemma_rt_metadata(m: MetadataV, rest: Seq<u8>)
    ensures
        parse_metadata(enc_metadata(m) + rest) == Some((m, rest)),
{
    lemma_enc_metadata_shape(m, rest);
    let b = enc_metadata(m) + rest;
    let b4 = meta_tail_bytes(m, rest);
    let b3 = enc_str(k_description()) + seq![58u8] + enc_str(m.description) + seq![44u8] + b4;
    let b2 = enc_str(k_name()) + seq![58u8] + enc_str(m.name) + seq![44u8] + b3;
    let b1 = enc_str(k_id()) + seq![58u8] + enc_str(m.id) + seq![44u8] + b2;
    assert(b1 =~= meta_body_bytes(m, rest));
    assert(b[0] == 123);
    assert(b.drop_first() =~= b1);
    let acc0 = empty_meta_acc();
    let acc1 = MetaAcc { id: Some(m.id), ..acc0 };
    let acc2 = MetaAcc { name: Some(m.name), ..acc1 };
    let acc3 = MetaAcc { description: Some(m.description), ..acc2 };
    assert(enc_str(m.id)[0] == 34);
    lemma_rt_string(m.id, seq![44u8] + b2);
    lemma_meta_field_step(k_id(), enc_str(m.id), acc0, acc1, b2);
    assert(enc_str(m.name)[0] == 34);
    lemma_rt_string(m.name, seq![44u8] + b3);
    lemma_meta_field_step(k_name(), enc_str(m.name), acc1, acc2, b3);
    assert(enc_str(m.description)[0] == 34);
    lemma_rt_string(m.description, seq![44u8] + b4);
    lemma_meta_field_step(k_description(), enc_str(m.description), acc2, acc3, b4);
    lemma_rt_metadata_tail(m, rest, acc3);
}

/// One field step of the entry parser, ending in a comma.
#[verifier::rlimit(100)]
#[verifier::spinoff_prover]
proof fn lemma_item_field_step(
    key: Seq<char>,
    venc: Seq<u8>,
    acc: ItemAcc,
    acc2: ItemAcc,
    t2: Seq<u8>,
)
    requires
        venc.len() > 0 && !is_ws(venc[0]),
        parse_item_field_value(venc + (seq![44u8] + t2), key, acc) == Some((acc2, seq![44u8] + t2)),
    ensures
        parse_item_fields(enc_str(key) + seq![58u8] + venc + seq![44u8] + t2, acc)
            == parse_item_fields(t2, acc2),
{
    let b = enc_str(key) + seq![58u8] + venc + seq![44u8] + t2;
    let b1 = seq![58u8] + (venc + (seq![44u8] + t2));
    assert(b =~= enc_str(key) + b1);
    assert(b[0] == 34);
    assert(ws_suffix(b) == b);
    lemma_rt_string(key, b1);
    assert(b1[0] == 58);
    assert(ws_suffix(b1) == b1);
    assert(b1.drop_first() =~= venc + (seq![44u8] + t2));
    assert((venc + (seq![44u8] + t2))[0] == venc[0]);
    assert(ws_suffix(venc + (seq![44u8] + t2)) == venc + (seq![44u8] + t2));
    let b3 = seq![44u8] + t2;
    assert(b3.len() < b.len());
    assert(b3[0] == 44);
    assert(ws_suffix(b3) == b3);
    assert(b3.drop_first() =~= t2);
}

/// The last field step of the entry parser, ending in a closing brace.
#[verifier::rlimit(100)]
#[verifier::spinoff_prover]
proof fn lemma_item_field_end(
    key: Seq<char>,
    venc: Seq<u8>,
    acc: ItemAcc,
    acc2: ItemAcc,
    rest: Seq<u8>,
)
    requires
        venc.len() > 0 && !is_ws(venc[0]),
        parse_item_field_value(venc + (seq![125u8] + rest), key, acc) == Some(
            (acc2, seq![125u8] + rest),
        ),
    ensures
        parse_item_fields(enc_str(key) + seq![58u8] + venc + seq![125u8] + rest, acc) == match finish_item(
            acc2,
        ) {
            Some(it) => Some((it, rest)),
            None => None,
        },
{
    let b = enc_str(key) + seq![58u8] + venc + seq![125u8] + rest;
    let b1 = seq![58u8] + (venc + (seq![125u8] + rest));
    assert(b =~= enc_str(key) + b1);
    assert(b[0] == 34);
    assert(ws_suffix(b) == b);
    lemma_rt_string(key, b1);
    assert(b1[0] == 58);
    assert(ws_suffix(b1) == b1);
    assert(b1.drop_first() =~= venc + (seq![125u8] + rest));
    assert((venc + (seq![125u8] + rest))[0] == venc[0]);
    assert(ws_suffix(venc + (seq![125u8] + rest)) == venc + (seq![125u8] + rest));
    let b3 = seq![125u8] + rest;
    assert(b3.len() < b.len());
    assert(b3[0] == 125);
    assert(ws_suffix(b3) == b3);
    assert(b3.drop_first() =~= rest);
}

#[verifier::rlimit(100)]
#[verifier::spinoff_prover]
proof fn lemma_rt_meta_opt(m: Option<MetadataV>, rest: Seq<u8>, key: Seq<char>, acc: ItemAcc)
    requires
        key == k_metadata(),
    ensures
        parse_item_field_value(enc_meta_opt(m) + rest, key, acc) == Some(
            (ItemAcc { metadata: Some(m), ..acc }, rest),
        ),
{
    let b = enc_meta_opt(m) + rest;
    match m {
        None => {
            assert(b =~= null_bytes() + rest);
            assert(b.len() >= 4);
            assert(b.subrange(0, 4) =~= null_bytes());
            assert(b.skip(4) =~= rest);
        },
        Some(x) => {
            reveal(enc_metadata);
            assert(b =~= enc_metadata(x) + rest);
            assert(b[0] == 123);
            assert(b.len() >= 4);
            assert(b.subrange(0, 4)[0] == 123);
            assert(null_bytes()[0] == 110);
            assert(b.subrange(0, 4) != null_bytes());
            lemma_rt_metadata(x, rest);
        },
    }
}

#[verifier::spinoff_prover]
#[verifier::rlimit(100)]
proof fn lemma_rt_item(it: RecordItemV, rest: Seq<u8>)
    ensures
        parse_item(enc_item(it) + rest) == Some((it, rest)),
{
    reveal(enc_item);
    let b = enc_item(it) + rest;
    let b5 = enc_str(k_metadata()) + seq![58u8] + enc_meta_opt(it.metadata) + seq![125u8] + rest;
    let b4 = enc_str(k_from()) + seq![58u8] + enc_str(it.from) + seq![44u8] + b5;
    let b3 = enc_str(k_files()) + seq![58u8] + enc_strs(it.files) + seq![44u8] + b4;
    let b2 = enc_str(k_last_update_time()) + seq![58u8] + enc_str(it.last_update_time) + seq![44u8]
        + b3;
    let b1 = enc_str(k_sha256()) + seq![58u8] + enc_str(it.sha256) + seq![44u8] + b2;
    assert(b =~= seq![123u8] + b1);
    assert(b[0] == 123);
    assert(b.drop_first() =~= b1);
    let acc0 = empty_item_acc();
    let acc1 = ItemAcc { sha256: Some(it.sha256), ..acc0 };
    let acc2 = ItemAcc { last_update_time: Some(it.last_update_time), ..acc1 };
    let acc3 = ItemAcc { files: Some(it.files), ..acc2 };
    let acc4 = ItemAcc { from: Some(it.from), ..acc3 };
    let acc5 = ItemAcc { metadata: Some(it.metadata), ..acc4 };
    assert(enc_str(it.sha256)[0] == 34);
    lemma_rt_string(it.sha256, seq![44u8] + b2);
    lemma_item_field_step(k_sha256(), enc_str(it.sha256), acc0, acc1, b2);
    assert(enc_str(it.last_update_time)[0] == 34);
    lemma_rt_string(it.last_update_time, seq![44u8] + b3);
    lemma_item_field_step(k_last_update_time(), enc_str(it.last_update_time), acc1, acc2, b3);
    assert(enc_strs(it.files)[0] == 91);
    lemma_rt_strs(it.files, seq![44u8] + b4);
    lemma_item_field_step(k_files(), enc_strs(it.files), acc2, acc3, b4);
    assert(enc_str(it.from)[0] == 34);
    lemma_rt_string(it.from, seq![44u8] + b5);
    lemma_item_field_step(k_from(), enc_str(it.from), acc3, acc4, b5);
    match it.metadata {
        None => {
            assert(enc_meta_opt(it.metadata)[0] == 110);
        },
        Some(x) => {
            lemma_enc_metadata_head(x);
            assert(enc_meta_opt(it.metadata)[0] == 123);
        },
    }
    lemma_rt_meta_opt(it.metadata, seq![125u8] + rest, k_metadata(), acc4);
    lemma_item_field_end(k_metadata(), enc_meta_opt(it.metadata), acc4, acc5, rest);
    assert(finish_item(acc5) == Some(it));
}

/// One entry of the installed map: parse the key, the colon and the item,
/// record the entry, and stand before the separator.
#[verifier::spinoff_prover]
#[verifier::rlimit(100)]
proof fn lemma_rt_one_entry(
    key: Seq<char>,
    item: RecordItemV,
    t: Seq<u8>,
    acc: Seq<(Seq<char>, RecordItemV)>,
)
    requires
        forall|i: int| 0 <= i < acc.len() ==> (#[trigger] acc[i]).0 != key,
        t.len() >= 1,
        !is_ws(t[0]),
    ensures
        parse_entries_fields(enc_field(key, enc_item(item)) + t, acc) == ({
            let acc2 = acc.push((key, item));
            if t[0] == 44 {
                parse_entries_fields(t.drop_first(), acc2)
            } else if t[0] == 125 {
                Some((acc2, t.drop_first()))
            } else {
                None
            }
        }),
{
    let b = enc_field(key, enc_item(item)) + t;
    let b1 = seq![58u8] + (enc_item(item) + t);
    assert(b =~= enc_str(key) + b1);
    assert(b[0] == 34);
    assert(ws_suffix(b) == b);
    lemma_rt_string(key, b1);
    assert(b1[0] == 58);
    assert(ws_suffix(b1) == b1);
    assert(b1.drop_first() =~= enc_item(item) + t);
    lemma_enc_item_head(item);
    assert((enc_item(item) + t)[0] == 123);
    assert(ws_suffix(enc_item(item) + t) == enc_item(item) + t);
    lemma_rt_item(item, t);
    assert(ws_suffix(t) == t);
    assert(!(exists|i: int| 0 <= i < acc.len() && acc[i].0 == key));
    assert(t.len() < b.len());
}

#[verifier::spinoff_prover]
#[verifier::rlimit(100)]
proof fn lemma_rt_entries_fields(
    s: Seq<(Seq<char>, RecordItemV)>,
    acc: Seq<(Seq<char>, RecordItemV)>,
    rest: Seq<u8>,
)
    requires
        s.len() >= 1,
        forall|i: int, j: int|
            0 <= i < j < acc.len() + s.len() ==> (acc + s)[i].0 != (acc + s)[j].0,
    ensures
        parse_entries_fields(
            enc_field(s[0].0, enc_item(s[0].1)) + enc_more_entries(s.drop_first()) + seq![125u8]
                + rest,
            acc,
        ) == Some((acc + s, rest)),
    decreases s.len(),
{
    let key = s[0].0;
    let item = s[0].1;
    let tail = s.drop_first();
    let t = enc_more_entries(tail) + seq![125u8] + rest;
    let b = enc_field(key, enc_item(item)) + enc_more_entries(tail) + seq![125u8] + rest;
    assert(b =~= enc_field(key, enc_item(item)) + t);
    // the key is fresh: it differs from every id already gathered
    assert forall|i: int| 0 <= i < acc.len() implies (#[trigger] acc[i]).0 != key by {
        assert((acc + s)[i].0 != (acc + s)[acc.len() as int].0);
        assert((acc + s)[i] == acc[i]);
        assert((acc + s)[acc.len() as int] == s[0]);
    }
    let acc2 = acc.push((key, item));
    if tail.len() == 0 {
        assert(enc_more_entries(tail) =~= Seq::<u8>::empty());
        assert(t =~= seq![125u8] + rest);
        assert(t[0] == 125);
        assert(!is_ws(t[0]));
        lemma_rt_one_entry(key, item, t, acc);
        assert(t.drop_first() =~= rest);
        assert(acc2 =~= acc + s);
    } else {
        assert(enc_more_entries(tail) == seq![44u8] + enc_field(tail[0].0, enc_item(tail[0].1))
            + enc_more_entries(tail.drop_first()));
        assert(t =~= seq![44u8] + (enc_field(tail[0].0, enc_item(tail[0].1)) + enc_more_entries(
            tail.drop_first(),
        ) + seq![125u8] + rest));
        assert(t[0] == 44);
        assert(!is_ws(t[0]));
        lemma_rt_one_entry(key, item, t, acc);
        assert(t.drop_first() =~= enc_field(tail[0].0, enc_item(tail[0].1)) + enc_more_entries(
            tail.drop_first(),
        ) + seq![125u8] + rest);
        assert(t.drop_first()[0] == 34);
        assert forall|i: int, j: int|
            0 <= i < j < acc2.len() + tail.len() implies (acc2 + tail)[i].0 != (acc2
            + tail)[j].0 by {
            assert(acc2 + tail =~= acc + s);
        }
        lemma_rt_entries_fields(tail, acc2, rest);
        assert(acc2 + tail =~= acc + s);
    }
}

#[verifier::spinoff_prover]
#[verifier::rlimit(100)]
proof fn lemma_rt_installed(s: Seq<(Seq<char>, RecordItemV)>, rest: Seq<u8>)
    requires
        forall|i: int, j: int| 0 <= i < j < s.len() ==> s[i].0 != s[j].0,
    ensures
        parse_installed(seq![123u8] + enc_entries(s) + seq![125u8] + rest) == Some((s, rest)),
{
    let b = seq![123u8] + enc_entries(s) + seq![125u8] + rest;
    assert(b[0] == 123);
    let b1 = enc_entries(s) + seq![125u8] + rest;
    assert(b.drop_first() =~= b1);
    if s.len() == 0 {
        assert(enc_entries(s) =~= Seq::<u8>::empty());
        assert(b1 =~= seq![125u8] + rest);
        assert(b1[0] == 125);
        assert(ws_suffix(b1) == b1);
        assert(b1.drop_first() =~= rest);
        assert(s =~= Seq::<(Seq<char>, RecordItemV)>::empty());
    } else {
        assert(b1 =~= enc_field(s[0].0, enc_item(s[0].1)) + enc_more_entries(s.drop_first())
            + seq![125u8] + rest);
        assert(b1[0] == 34);
        assert(ws_suffix(b1) == b1);
        assert forall|i: int, j: int|
            0 <= i < j < 0 + s.len() implies (Seq::<(Seq<char>, RecordItemV)>::empty() + s)[i].0
            != (Seq::<(Seq<char>, RecordItemV)>::empty() + s)[j].0 by {
            assert(Seq::<(Seq<char>, RecordItemV)>::empty() + s =~= s);
        }
        lemma_rt_entries_fields(s, Seq::<(Seq<char>, RecordItemV)>::empty(), rest);
        assert(Seq::<(Seq<char>, RecordItemV)>::empty() + s =~= s);
    }
}

/// Law: the record store round-trips. For any well-formed record, decoding
/// the bytes the encoder writes gives exactly that record back.
#[verifier::spinoff_prover]
#[verifier::rlimit(100)]
pub proof fn lemma_record_round_trip(rv: RecordV)
    requires
        rv.wf(),
    ensures
        spec_decode_record(spec_encode_record(rv)) == Some(rv),
{
    let b = spec_encode_record(rv);
    let inner = seq![123u8] + enc_entries(rv.installed) + seq![125u8];
    let b1 = seq![58u8] + (inner + seq![125u8]);
    assert(b =~= seq![123u8] + (enc_str(k_installed()) + b1));
    assert(b[0] == 123);
    assert(ws_suffix(b) == b);
    assert(b.drop_first() =~= enc_str(k_installed()) + b1);
    assert((enc_str(k_installed()) + b1)[0] == 34);
    assert(ws_suffix(enc_str(k_installed()) + b1) == enc_str(k_installed()) + b1);
    lemma_rt_string(k_installed(), b1);
    assert(b1[0] == 58);
    assert(ws_suffix(b1) == b1);
    assert(b1.drop_first() =~= inner + seq![125u8]);
    assert((inner + seq![125u8])[0] == 123);
    assert(ws_suffix(inner + seq![125u8]) == inner + seq![125u8]);
    assert(inner + seq![125u8] =~= seq![123u8] + enc_entries(rv.installed) + seq![125u8] + seq![
        125u8,
    ]);
    lemma_rt_installed(rv.installed, seq![125u8]);
    let b3 = seq![125u8];
    assert(b3.len() < b.drop_first().len());
    assert(b3[0] == 125);
    assert(ws_suffix(b3) == b3);
    assert(b3.drop_first() =~= Seq::<u8>::empty());
    assert(parse_record(b) == Some((RecordV { installed: rv.installed }, Seq::<u8>::empty())));
    assert(RecordV { installed: rv.installed } == rv);
    let rest = parse_record(b)->Some_0.1;
    assert(forall|i: int| 0 <= i < rest.len() ==> is_ws(#[trigger] rest[i]));
}

#[verifier::spinoff_prover]
#[verifier::rlimit(100)]
proof fn lemma_entries_fields_unique(b: Seq<u8>, acc: Seq<(Seq<char>, RecordItemV)>)
    requires
        forall|i: int, j: int| 0 <= i < j < acc.len() ==> acc[i].0 != acc[j].0,
    ensures
        parse_entries_fields(b, acc) matches Some(p) ==> forall|i: int, j: int|
            0 <= i < j < p.0.len() ==> p.0[i].0 != p.0[j].0,
    decreases b.len(),
{
    match parse_string(ws_suffix(b)) {
        Some(kp) => {
            let b1 = ws_suffix(kp.1);
            if b1.len() > 0 && b1[0] == 58 {
                match parse_item(ws_suffix(b1.drop_first())) {
                    Some(ip) => {
                        if exists|i: int| 0 <= i < acc.len() && acc[i].0 == kp.0 {
                        } else {
                            let acc2 = acc.push((kp.0, ip.0));
                            assert forall|i: int, j: int| 0 <= i < j < acc2.len() implies acc2[i].0
                                != acc2[j].0 by {
                                if j < acc2.len() - 1 {
                                    assert(acc2[i] == acc[i] && acc2[j] == acc[j]);
                                } else {
                                    assert(acc2[j] == (kp.0, ip.0));
                                    assert(acc2[i] == acc[i]);
                                }
                            }
                            let b3 = ws_suffix(ip.1);
                            if b3.len() < b.len() && b3.len() > 0 {
                                if b3[0] == 44 {
                                    lemma_entries_fields_unique(b3.drop_first(), acc2);
                                }
                            }
                        }
                    },
                    None => {},
                }
            }
        },
        None => {},
    }
}

#[verifier::spinoff_prover]
#[verifier::rlimit(100)]
proof fn lemma_rec_fields_wf(b: Seq<u8>, acc: Option<Seq<(Seq<char>, RecordItemV)>>)
    requires
        acc matches Some(s) ==> forall|i: int, j: int| 0 <= i < j < s.len() ==> s[i].0 != s[j].0,
    ensures
        parse_rec_fields(b, acc) matches Some(p) ==> p.0.wf(),
    decreases b.len(),
{
    match parse_string(ws_suffix(b)) {
        Some(kp) => {
            let b1 = ws_suffix(kp.1);
            if b1.len() > 0 && b1[0] == 58 {
                let step: Option<(Option<Seq<(Seq<char>, RecordItemV)>>, Seq<u8>)> = if kp.0
                    == k_installed() {
                    match parse_installed(ws_suffix(b1.drop_first())) {
                        Some(p) => Some((Some(p.0), p.1)),
                        None => None,
                    }
                } else {
                    match skip_value(ws_suffix(b1.drop_first())) {
                        Some(r) => Some((acc, r)),
                        None => None,
                    }
                };
                match step {
                    Some(sp) => {
                        if kp.0 == k_installed() {
                            let inner = ws_suffix(b1.drop_first());
                            if inner.len() > 0 && inner[0] == 123 {
                                let ib = ws_suffix(inner.drop_first());
                                if ib.len() > 0 && ib[0] == 125 {
                                } else {
                                    lemma_entries_fields_unique(
                                        ib,
                                        Seq::<(Seq<char>, RecordItemV)>::empty(),
                                    );
                                }
                            }
                        }
                        assert(sp.0 matches Some(s) ==> forall|i: int, j: int|
                            0 <= i < j < s.len() ==> s[i].0 != s[j].0);
                        let b3 = ws_suffix(sp.1);
                        if b3.len() < b.len() && b3.len() > 0 {
                            if b3[0] == 44 {
                                lemma_rec_fields_wf(b3.drop_first(), sp.0);
                            }
                        }
                    },
                    None => {},
                }
            }
        },
        None => {},
    }
}

/// What a manifest holds is always well formed: decoding cannot yield
/// duplicate install ids.
#[verifier::spinoff_prover]
#[verifier::rlimit(100)]
pub proof fn lemma_decode_wf(b: Seq<u8>)
    ensures
        spec_decode_record(b) matches Some(rv) ==> rv.wf(),
{
    let b0 = ws_suffix(b);
    if b0.len() > 0 && b0[0] == 123 {
        lemma_rec_fields_wf(b0.drop_first(), None);
    }
}

#[verifier::spinoff_prover]
#[verifier::rlimit(100)]
fn all_trailing_ws(b: &Vec<u8>, p: usize) -> (r: bool)
    requires
        p <= b@.len(),
    ensures
        r == forall|j: int|
            0 <= j < b@.skip(p as int).len() ==> is_ws(#[trigger] b@.skip(p as int)[j]),
{
    let mut i: usize = p;
    while i < b.len()
        invariant
            p <= i <= b@.len(),
            forall|j: int| 0 <= j < i - p ==> is_ws(#[trigger] b@.skip(p as int)[j]),
        decreases b@.len() - i,
    {
        let x = b[i];
        proof {
            assert(b@.skip(p as int)[i - p] == b@[i as int]);
        }
        if !(x == 32 || x == 9 || x == 10 || x == 13) {
            proof {
                assert(!is_ws(b@.skip(p as int)[i - p]));
            }
            return false;
        }
        i = i + 1;
    }
    true
}

/// The record a manifest document holds. Fails exactly when the bytes are not
/// a valid serialized record.
#[verifier::spinoff_prover]
#[verifier::rlimit(100)]
pub fn decode_record(b: &Vec<u8>) -> (r: Result<Record, crate::record::Error>)
    ensures
        match r {
            Ok(rec) => spec_decode_record(b@) == Some(rec@),
            Err(e) => spec_decode_record(b@) is None && e is Corrupt,
        },
{
    proof {
        assert(b@.skip(0) =~= b@);
    }
    match d_record(b, 0) {
        Some((rec, p)) => {
            if all_trailing_ws(b, p) {
                proof {
                    let rest = parse_record(b@)->Some_0.1;
                    assert(rest == b@.skip(p as int));
                    assert(forall|i: int| 0 <= i < rest.len() ==> is_ws(#[trigger] rest[i]));
                    assert(spec_decode_record(b@) == Some(rec@));
                }
                Ok(rec)
            } else {
                proof {
                    let rest = parse_record(b@)->Some_0.1;
                    assert(rest == b@.skip(p as int));
                    let j0 = choose|j: int|
                        0 <= j < b@.skip(p as int).len() && !is_ws(#[trigger] b@.skip(p as int)[j]);
                    assert(!is_ws(rest[j0]));
                    assert(spec_decode_record(b@) is None);
                }
                Err(crate::record::Error::Corrupt)
            }
        },
        None => Err(crate::record::Error::Corrupt),
    }
}

/// Load the manifest from its bytes. When the manifest file does not exist
/// yet (`bytes` is `None`), an empty record is synthesized and its canonical
/// byte form returned for the caller to persist, rather than failing. A
/// loaded record is always well formed.
#[verifier::spinoff_prover]
#[verifier::rlimit(100)]
pub fn read_manifest(bytes: Option<Vec<u8>>) -> (r: Result<
    (Record, Option<Vec<u8>>),
    crate::record::Error,
>)
    ensures
        match bytes {
            None => r matches Ok(p) && p.0@.installed.len() == 0 && (p.1 matches Some(init)
                && init@ == spec_encode_record(p.0@)),
            Some(bs) => match r {
                Ok(p) => spec_decode_record(bs@) == Some(p.0@) && p.1 is None,
                Err(e) => spec_decode_record(bs@) is None && e is Corrupt,
            },
        },
        r matches Ok(p) ==> p.0@.wf(),
{
    match bytes {
        None => {
            let rec = Record::empty();
            let init = encode_record(&rec);
            Ok((rec, Some(init)))
        },
        Some(bs) => {
            match decode_record(&bs) {
                Ok(rec) => {
                    proof {
                        lemma_decode_wf(bs@);
                    }
                    Ok((rec, None))
                },
                Err(e) => Err(e),
            }
        },
    }
}

} // verus!
