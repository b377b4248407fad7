//! Sanitization of archive entry names into safe relative paths. This is the
//! sole defense against path traversal from a malicious archive: backslashes
//! count as separators, and each segment is cleaned independently so that no
//! separator, traversal component or reserved character survives.

use vstd::prelude::*;

verus! {

/// A cleaned path segment: nonempty, not a dot or dot-dot name, and free of
/// path separators.
pub open spec fn seg_ok(seg: Seq<char>) -> bool {
    &&& seg.len() > 0
    &&& seg != seq!['.']
    &&& seg != seq!['.', '.']
    &&& forall|i: int| 0 <= i < seg.len() ==> seg[i] != '/' && seg[i] != '\\'
}

/// Every segment of the list is cleaned.
pub open spec fn all_segs_ok(segs: Seq<Seq<char>>) -> bool {
    forall|k: int| 0 <= k < segs.len() ==> seg_ok(#[trigger] segs[k])
}

/// The segments joined with `/` separators.
pub open spec fn join_path(segs: Seq<Seq<char>>) -> Seq<char>
    decreases segs.len(),
{
    if segs.len() == 0 {
        seq![]
    } else if segs.len() == 1 {
        segs[0]
    } else {
        join_path(segs.drop_last()) + seq!['/'] + segs.last()
    }
}

/// Splitting on `/`, walking the characters from the back; `cur` is the
/// partial segment gathered so far.
pub open spec fn split_from_back(s: Seq<char>, cur: Seq<char>) -> Seq<Seq<char>>
    decreases s.len(),
{
    if s.len() == 0 {
        seq![cur]
    } else if s.last() == '/' {
        split_from_back(s.drop_last(), seq![]).push(cur)
    } else {
        split_from_back(s.drop_last(), seq![s.last()] + cur)
    }
}

/// The segments of a path, split on `/`; the empty path has one empty segment.
pub open spec fn split_path(s: Seq<char>) -> Seq<Seq<char>> {
    split_from_back(s, seq![])
}

/// How one segment moves the depth when the path is resolved: dot-dot climbs
/// out one level, empty and dot segments stay, anything else descends.
pub open spec fn seg_step(seg: Seq<char>) -> int {
    if seg == seq!['.', '.'] {
        -1int
    } else if seg.len() == 0 || seg == seq!['.'] {
        0int
    } else {
        1int
    }
}

/// Resolving the segments starting `depth` levels below the root climbs above
/// the root at some point.
pub open spec fn escapes_rec(segs: Seq<Seq<char>>, depth: int) -> bool
    decreases segs.len(),
{
    if segs.len() == 0 {
        false
    } else {
        let d = depth + seg_step(segs[0]);
        d < 0 || escapes_rec(segs.drop_first(), d)
    }
}

/// Resolving the path's segments ever leaves the directory they are joined to.
pub open spec fn escapes(segs: Seq<Seq<char>>) -> bool {
    escapes_rec(segs, 0)
}

proof fn lemma_no_escape(segs: Seq<Seq<char>>, depth: int)
    requires
        depth >= 0,
        forall|k: int| 0 <= k < segs.len() ==> seg_step(#[trigger] segs[k]) >= 0,
    ensures
        !escapes_rec(segs, depth),
    decreases segs.len(),
{
    if segs.len() == 0 {
    } else {
        assert(seg_step(segs[0]) >= 0);
        assert forall|k: int| 0 <= k < segs.drop_first().len() implies seg_step(
            #[trigger] segs.drop_first()[k],
        ) >= 0 by {
            assert(segs.drop_first()[k] == segs[k + 1]);
        }
        lemma_no_escape(segs.drop_first(), depth + seg_step(segs[0]));
    }
}

proof fn lemma_split_append_seg(s: Seq<char>, seg: Seq<char>, cur: Seq<char>)
    requires
        forall|i: int| 0 <= i < seg.len() ==> #[trigger] seg[i] != '/',
    ensures
        split_from_back(s + seg, cur) == split_from_back(s, seg + cur),
    decreases seg.len(),
{
    if seg.len() == 0 {
        assert(s + seg =~= s);
        assert(seg + cur =~= cur);
    } else {
        assert((s + seg).last() == seg.last());
        assert((s + seg).drop_last() =~= s + seg.drop_last());
        assert forall|i: int| 0 <= i < seg.drop_last().len() implies #[trigger] seg.drop_last()[i]
            != '/' by {
            assert(seg.drop_last()[i] == seg[i]);
        }
        lemma_split_append_seg(s, seg.drop_last(), seq![seg.last()] + cur);
        assert(seg.drop_last() + (seq![seg.last()] + cur) =~= seg + cur);
    }
}

proof fn lemma_split_append_slash(s: Seq<char>, cur: Seq<char>)
    ensures
        split_from_back(s + seq!['/'], cur) == split_from_back(s, seq![]).push(cur),
{
    assert((s + seq!['/']).last() == '/');
    assert((s + seq!['/']).drop_last() =~= s);
}

proof fn lemma_split_of_join(segs: Seq<Seq<char>>)
    requires
        segs.len() >= 1,
        all_segs_ok(segs),
    ensures
        split_path(join_path(segs)) == segs,
    decreases segs.len(),
{
    if segs.len() == 1 {
        assert(join_path(segs) == segs[0]);
        assert(seg_ok(segs[0]));
        lemma_split_append_seg(seq![], segs[0], seq![]);
        assert(Seq::<char>::empty() + segs[0] =~= segs[0]);
        assert(segs[0] + Seq::<char>::empty() =~= segs[0]);
        assert(split_path(join_path(segs)) =~= segs);
    } else {
        let front = segs.drop_last();
        let last = segs.last();
        assert(seg_ok(last));
        assert(all_segs_ok(front)) by {
            assert forall|k: int| 0 <= k < front.len() implies seg_ok(#[trigger] front[k]) by {
                assert(front[k] == segs[k]);
            }
        }
        assert(join_path(segs) == join_path(front) + seq!['/'] + last);
        assert((join_path(front) + seq!['/']) + last =~= join_path(segs));
        lemma_split_append_seg(join_path(front) + seq!['/'], last, seq![]);
        assert(split_from_back(join_path(segs), seq![]) == split_from_back(
            join_path(front) + seq!['/'],
            last + seq![],
        ));
        lemma_split_append_slash(join_path(front), last + seq![]);
        lemma_split_of_join(front);
        assert(last + Seq::<char>::empty() =~= last);
        assert(front.push(last) =~= segs);
    }
}

/// Law: a path joined from cleaned segments never escapes the directory it is
/// resolved against — even when the original archive entry held `..` or
/// backslash traversal sequences, those do not survive segment cleaning.
pub proof fn lemma_sanitized_path_contained(segs: Seq<Seq<char>>)
    requires
        all_segs_ok(segs),
    ensures
        !escapes(split_path(join_path(segs))),
{
    if segs.len() == 0 {
        assert(split_path(join_path(segs)) =~= seq![Seq::<char>::empty()]);
        let sg = seq![Seq::<char>::empty()];
        assert(sg[0] =~= Seq::<char>::empty());
        assert(seg_step(sg[0]) == 0);
        assert(sg.drop_first() =~= Seq::<Seq<char>>::empty());
        assert(!escapes_rec(sg.drop_first(), 0));
        assert(!escapes_rec(sg, 0));
    } else {
        lemma_split_of_join(segs);
        assert forall|k: int| 0 <= k < segs.len() implies seg_step(#[trigger] segs[k]) >= 0 by {
            assert(seg_ok(segs[k]));
        }
        lemma_no_escape(segs, 0);
    }
}

/// A character the cleaner removes from a name: the path separators, the
/// other reserved characters, and the control ranges.
pub open spec fn is_removed_char(c: char) -> bool {
    ||| c == '/'
    ||| c == '\\'
    ||| c == '?'
    ||| c == '<'
    ||| c == '>'
    ||| c == ':'
    ||| c == '*'
    ||| c == '|'
    ||| c == '"'
    ||| (c as u32) < 0x20
    ||| (0x80 <= c as u32 && c as u32 <= 0x9f)
}

/// The name consists of dots alone (vacuously true of the empty name).
pub open spec fn dots_only(s: Seq<char>) -> bool {
    forall|i: int| 0 <= i < s.len() ==> s[i] == '.'
}

/// `c` is the letter `lo` in either case (`lo` a lower-case ASCII letter).
pub open spec fn eq_ci(c: char, lo: char) -> bool {
    c == lo || c as u32 == lo as u32 - 32
}

pub open spec fn is_ascii_digit(c: char) -> bool {
    48 <= c as u32 && c as u32 <= 57
}

pub open spec fn win_device3(s: Seq<char>, a: char, b: char, c: char) -> bool {
    s.len() >= 3 && eq_ci(s[0], a) && eq_ci(s[1], b) && eq_ci(s[2], c) && (s.len() == 3 || s[3]
        == '.')
}

pub open spec fn win_device4(s: Seq<char>, a: char, b: char, c: char) -> bool {
    s.len() >= 4 && eq_ci(s[0], a) && eq_ci(s[1], b) && eq_ci(s[2], c) && is_ascii_digit(s[3]) && (
    s.len() == 4 || s[4] == '.')
}

/// A reserved Windows device name (in any case, with an optional extension),
/// which the cleaner removes on that platform.
pub open spec fn is_win_reserved(s: Seq<char>) -> bool {
    ||| win_device3(s, 'c', 'o', 'n')
    ||| win_device3(s, 'p', 'r', 'n')
    ||| win_device3(s, 'a', 'u', 'x')
    ||| win_device3(s, 'n', 'u', 'l')
    ||| win_device4(s, 'c', 'o', 'm')
    ||| win_device4(s, 'l', 'p', 't')
}

/// A name the cleaner provably returns unchanged on every platform: free of
/// removed characters, not made of dots alone, not a Windows device name,
/// without a trailing dot or space, and short enough to escape truncation.
pub open spec fn seg_clean(s: Seq<char>) -> bool {
    &&& forall|i: int| 0 <= i < s.len() ==> !is_removed_char(#[trigger] s[i])
    &&& !(s.len() > 0 && dots_only(s))
    &&& !is_win_reserved(s)
    &&& (s.len() == 0 || (s.last() != '.' && s.last() != ' '))
    &&& vstd::utf8::encode_utf8(s).len() <= 255
}

/// What is known of cleaning one segment `s` into `c`: the output never holds
/// a separator and never names a dot directory; a dots-only segment cleans
/// away entirely; an already-clean segment survives unchanged.
pub open spec fn seg_cleans_to(s: Seq<char>, c: Seq<char>) -> bool {
    &&& forall|i: int| 0 <= i < c.len() ==> c[i] != '/' && c[i] != '\\'
    &&& c != seq!['.']
    &&& c != seq!['.', '.']
    &&& (dots_only(s) ==> c.len() == 0)
    &&& (seg_clean(s) ==> c == s)
}

/// The segments of a raw entry name, split on both separators; `cur` is the
/// partial segment gathered so far.
pub open spec fn split2_front(s: Seq<char>, cur: Seq<char>) -> Seq<Seq<char>>
    decreases s.len(),
{
    if s.len() == 0 {
        seq![cur]
    } else if s[0] == '/' || s[0] == '\\' {
        seq![cur] + split2_front(s.drop_first(), seq![])
    } else {
        split2_front(s.drop_first(), cur.push(s[0]))
    }
}

pub open spec fn split_on_seps(s: Seq<char>) -> Seq<Seq<char>> {
    split2_front(s, seq![])
}

/// The nonempty entries, in order: empty cleanings are dropped.
pub open spec fn nonempty_of(l: Seq<Seq<char>>) -> Seq<Seq<char>>
    decreases l.len(),
{
    if l.len() == 0 {
        seq![]
    } else {
        let rest = nonempty_of(l.drop_last());
        if l.last().len() == 0 {
            rest
        } else {
            rest.push(l.last())
        }
    }
}

/// `cleaned` cleans the raw name segment by segment.
pub open spec fn cleans_per_segment(raw: Seq<char>, cleaned: Seq<Seq<char>>) -> bool {
    &&& cleaned.len() == split_on_seps(raw).len()
    &&& forall|k: int|
        0 <= k < cleaned.len() ==> seg_cleans_to(split_on_seps(raw)[k], #[trigger] cleaned[k])
}

/// `path` is a faithful cleaning of the raw entry name: each segment (split
/// on both separators) cleaned independently, empty cleanings dropped, the
/// rest joined with `/`. On a name whose segments are each already clean or
/// dots-only, this determines the path completely.
pub open spec fn sanitized_from(raw: Seq<char>, path: Seq<char>) -> bool {
    exists|cleaned: Seq<Seq<char>>|
        cleans_per_segment(raw, cleaned) && path == join_path(nonempty_of(cleaned))
}

/// Relies on sanitize_filename::sanitize, read on both of its platform
/// branches: the separators, reserved characters and controls are always
/// removed; the dot-only rule runs after those removals, so neither `.` nor
/// `..` can come out and a dots-only name cleans away; and a name that none
/// of the rules touches (on either platform) passes through unchanged.
#[verifier::external_body]
fn sanitize_segment(seg: &str) -> (r: String)
    ensures
        seg_cleans_to(seg@, r@),
{
    sanitize_filename::sanitize(seg)
}

/// The cleaned relative form of one archive entry name: backslashes are
/// treated as separators, each segment is cleaned independently, and empty
/// segments are dropped. Returns the segments and the `/`-joined path, which
/// never resolves outside the directory it is later joined to.
pub fn sanitize_file_path(raw: &str) -> (r: (Vec<String>, String))
    ensures
        all_segs_ok(r.0.deep_view()),
        r.1@ == join_path(r.0.deep_view()),
        !escapes(split_path(r.1@)),
        (exists|cleaned: Seq<Seq<char>>|
            cleans_per_segment(raw@, cleaned) && r.0.deep_view() == nonempty_of(cleaned)),
        sanitized_from(raw@, r.1@),
{
    let n = raw.unicode_len();
    let mut segs: Vec<String> = Vec::new();
    let mut start: usize = 0;
    let mut i: usize = 0;
    let ghost mut gall: Seq<Seq<char>> = seq![];
    let ghost mut gclean: Seq<Seq<char>> = seq![];
    proof {
        assert(raw@.skip(0) =~= raw@);
        assert(raw@.subrange(0, 0) =~= Seq::<char>::empty());
        assert(gall + split2_front(raw@.skip(0), raw@.subrange(0, 0)) =~= split_on_seps(raw@));
        assert(segs.deep_view() =~= nonempty_of(gclean));
    }
    while i < n
        invariant
            n == raw@.len(),
            start <= i <= n,
            all_segs_ok(segs.deep_view()),
            split_on_seps(raw@) == gall + split2_front(
                raw@.skip(i as int),
                raw@.subrange(start as int, i as int),
            ),
            gclean.len() == gall.len(),
            forall|k: int| 0 <= k < gall.len() ==> seg_cleans_to(gall[k], #[trigger] gclean[k]),
            segs.deep_view() == nonempty_of(gclean),
        decreases n - i,
    {
        proof {
            assert(raw@.skip(i as int)[0] == raw@[i as int]);
            assert(raw@.skip(i as int).drop_first() =~= raw@.skip(i + 1 as int));
        }
        let c = raw.get_char(i);
        if c == '/' || c == '\\' {
            let seg = raw.substring_char(start, i);
            let cleaned = sanitize_segment(seg);
            let ghost cur = raw@.subrange(start as int, i as int);
            let ghost gclean_old = gclean;
            proof {
                assert(split2_front(raw@.skip(i as int), cur) == seq![cur] + split2_front(
                    raw@.skip(i + 1 as int),
                    seq![],
                ));
                assert(raw@.subrange(i + 1 as int, i + 1 as int) =~= Seq::<char>::empty());
                assert(gall + (seq![cur] + split2_front(raw@.skip(i + 1 as int), seq![])) =~= gall
                    .push(cur) + split2_front(
                    raw@.skip(i + 1 as int),
                    raw@.subrange(i + 1 as int, i + 1 as int),
                ));
                gall = gall.push(cur);
                gclean = gclean.push(cleaned@);
                assert(gclean.drop_last() =~= gclean_old);
                assert(gclean.last() == cleaned@);
            }
            if !cleaned.as_str().is_empty() {
                let ghost before = segs.deep_view();
                proof {
                    assert(seg_ok(cleaned@));
                }
                segs.push(cleaned);
                proof {
                    assert(segs.deep_view() =~= before.push(gclean.last()));
                    assert(nonempty_of(gclean) == nonempty_of(gclean_old).push(gclean.last()));
                }
            } else {
                proof {
                    assert(nonempty_of(gclean) == nonempty_of(gclean_old));
                }
            }
            start = i + 1;
        } else {
            proof {
                assert(raw@.subrange(start as int, i as int).push(raw@[i as int]) =~= raw@.subrange(
                    start as int,
                    i + 1 as int,
                ));
            }
        }
        i = i + 1;
    }
    let seg = raw.substring_char(start, n);
    let cleaned = sanitize_segment(seg);
    let ghost cur = raw@.subrange(start as int, n as int);
    let ghost gclean_old = gclean;
    proof {
        assert(raw@.skip(n as int) =~= Seq::<char>::empty());
        assert(split2_front(raw@.skip(n as int), cur) == seq![cur]);
        assert(gall + seq![cur] =~= gall.push(cur));
        gall = gall.push(cur);
        gclean = gclean.push(cleaned@);
        assert(gclean.drop_last() =~= gclean_old);
        assert(gclean.last() == cleaned@);
    }
    if !cleaned.as_str().is_empty() {
        let ghost before = segs.deep_view();
        proof {
            assert(seg_ok(cleaned@));
        }
        segs.push(cleaned);
        proof {
            assert(segs.deep_view() =~= before.push(gclean.last()));
            assert(nonempty_of(gclean) == nonempty_of(gclean_old).push(gclean.last()));
        }
    } else {
        proof {
            assert(nonempty_of(gclean) == nonempty_of(gclean_old));
        }
    }
    proof {
        assert(split_on_seps(raw@) == gall);
        assert(cleans_per_segment(raw@, gclean));
        assert(segs.deep_view() == nonempty_of(gclean));
    }
    let mut path = String::new();
    let mut k: usize = 0;
    proof {
        reveal_strlit("/");
    }
    while k < segs.len()
        invariant
            k <= segs.len(),
            path@ == join_path(segs.deep_view().take(k as int)),
            "/"@ == seq!['/'],
        decreases segs.len() - k,
    {
        proof {
            assert(segs.deep_view().take(k + 1 as int).drop_last() =~= segs.deep_view().take(
                k as int,
            ));
            assert(segs.deep_view().take(k + 1 as int).last() == segs.deep_view()[k as int]);
        }
        if k > 0 {
            path.append("/");
        }
        path.append(segs[k].as_str());
        proof {
            if k == 0 {
                assert(segs.deep_view().take(1).len() == 1);
                assert(path@ =~= segs.deep_view()[0]);
            }
        }
        k = k + 1;
    }
    proof {
        assert(segs.deep_view().take(segs.deep_view().len() as int) =~= segs.deep_view());
        lemma_sanitized_path_contained(segs.deep_view());
        assert(cleans_per_segment(raw@, gclean) && path@ == join_path(nonempty_of(gclean)));
    }
    (segs, path)
}

} // verus!
