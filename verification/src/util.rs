//! Path helpers for resolving OPF-relative hrefs inside the zip archive.

use vstd::prelude::*;
use vstd::string::StrSliceExecFns;

use crate::chars::{chars_of, decode_utf8_lossy, extend_chars, extend_str, string_of, utf8_lossy};

verus! {

// ---------------------------------------------------------------------------
// Specification
// ---------------------------------------------------------------------------

/// `#` and `?` start a URL fragment or query.
pub open spec fn is_fragment_start(c: char) -> bool {
    c == '#' || c == '?'
}

/// The href with everything from the first `#` or `?` on removed.
pub open spec fn strip_fragment(h: Seq<char>) -> Seq<char>
    decreases h.len(),
{
    if h.len() == 0 {
        h
    } else if is_fragment_start(h[0]) {
        Seq::empty()
    } else {
        seq![h[0]] + strip_fragment(h.drop_first())
    }
}

/// The value of an ASCII hex digit.
pub open spec fn hex_digit(b: u8) -> Option<u8> {
    if 0x30 <= b && b <= 0x39 {
        Some((b - 0x30) as u8)
    } else if 0x61 <= b && b <= 0x66 {
        Some((b - 0x61 + 10) as u8)
    } else if 0x41 <= b && b <= 0x46 {
        Some((b - 0x41 + 10) as u8)
    } else {
        None
    }
}

/// Is there a complete `%XX` escape at the start of `b`?
pub open spec fn escape_at_start(b: Seq<u8>) -> bool {
    2 < b.len() && b[0] == 0x25 && hex_digit(b[1]) is Some && hex_digit(b[2]) is Some
}

/// Byte-level percent decoding: every `%XX` with two hex digits becomes the
/// byte `0xXX`; everything else (including a stray or truncated `%`) is kept.
pub open spec fn percent_decode_bytes(b: Seq<u8>) -> Seq<u8>
    decreases b.len(),
{
    if b.len() == 0 {
        b
    } else if escape_at_start(b) {
        seq![(hex_digit(b[1]).unwrap() * 16 + hex_digit(b[2]).unwrap()) as u8]
            + percent_decode_bytes(b.skip(3))
    } else {
        seq![b[0]] + percent_decode_bytes(b.drop_first())
    }
}

/// Bytes read as UTF-8: decoded when valid, lossily otherwise.
pub open spec fn lossy_utf8(b: Seq<u8>) -> Seq<char> {
    if vstd::utf8::valid_utf8(b) {
        vstd::utf8::decode_utf8(b)
    } else {
        utf8_lossy(b)
    }
}

/// Percent decoding of a path: decode the escapes in its UTF-8 bytes and read
/// the result back as UTF-8, lossily where the bytes are not valid UTF-8. A
/// leading ASCII byte is always a character of its own.
pub open spec fn percent_decode(s: Seq<char>) -> Seq<char> {
    let b = percent_decode_bytes(vstd::utf8::encode_utf8(s));
    if b.len() > 0 && b[0] < 0x80 {
        seq![b[0] as char] + lossy_utf8(b.skip(1))
    } else {
        lossy_utf8(b)
    }
}

/// Index of the last occurrence of `c` in `s`, or -1.
pub open spec fn last_index_of(s: Seq<char>, c: char) -> int
    decreases s.len(),
{
    if s.len() == 0 {
        -1
    } else if s.last() == c {
        s.len() - 1
    } else {
        last_index_of(s.drop_last(), c)
    }
}

/// The directory part of an archive path: everything before the last `/`.
pub open spec fn parent_dir_of(p: Seq<char>) -> Seq<char> {
    let i = last_index_of(p, '/');
    if i < 0 {
        Seq::empty()
    } else {
        p.take(i)
    }
}

/// The `/`-separated segments of `s` (`str::split('/')`); never empty.
pub open spec fn split_slash(s: Seq<char>) -> Seq<Seq<char>>
    decreases s.len(),
{
    if s.len() == 0 {
        seq![Seq::empty()]
    } else {
        let p = split_slash(s.drop_last());
        if s.last() == '/' {
            p.push(Seq::empty())
        } else {
            p.update(p.len() - 1, p.last().push(s.last()))
        }
    }
}

/// One step of path normalization: empty and `.` segments vanish, `..` pops.
pub open spec fn push_segment(stack: Seq<Seq<char>>, seg: Seq<char>) -> Seq<Seq<char>> {
    if seg.len() == 0 || seg == seq!['.'] {
        stack
    } else if seg == seq!['.', '.'] {
        if stack.len() > 0 {
            stack.drop_last()
        } else {
            stack
        }
    } else {
        stack.push(seg)
    }
}

/// Normalization of a whole list of segments, left to right.
pub open spec fn fold_segments(stack: Seq<Seq<char>>, segs: Seq<Seq<char>>) -> Seq<Seq<char>>
    decreases segs.len(),
{
    if segs.len() == 0 {
        stack
    } else {
        push_segment(fold_segments(stack, segs.drop_last()), segs.last())
    }
}

/// Segments joined with `/` (`[&str]::join("/")`).
pub open spec fn join_slash(segs: Seq<Seq<char>>) -> Seq<char>
    decreases segs.len(),
{
    if segs.len() == 0 {
        Seq::empty()
    } else if segs.len() == 1 {
        segs[0]
    } else {
        join_slash(segs.drop_last()) + seq!['/'] + segs.last()
    }
}

/// The segments that resolution normalizes: an absolute href alone, a relative
/// one after the base file's directory.
pub open spec fn resolve_segments(base_file: Seq<char>, h: Seq<char>) -> Seq<Seq<char>> {
    if h.len() > 0 && h[0] == '/' {
        split_slash(h)
    } else {
        let dir = parent_dir_of(base_file);
        (if dir.len() == 0 {
            Seq::empty()
        } else {
            split_slash(dir)
        }) + split_slash(h)
    }
}

/// Resolution of `href` against the directory of `base_file`, optionally
/// percent-decoding the href first.
pub open spec fn resolve_spec(base_file: Seq<char>, href: Seq<char>, decode: bool) -> Seq<char> {
    let h0 = strip_fragment(href);
    let h = if decode {
        percent_decode(h0)
    } else {
        h0
    };
    join_slash(fold_segments(Seq::empty(), resolve_segments(base_file, h)))
}

/// A normalized path segment: not empty, not `.` or `..`, and free of `/`.
pub open spec fn clean_segment(seg: Seq<char>) -> bool {
    &&& seg.len() > 0
    &&& seg != seq!['.']
    &&& seg != seq!['.', '.']
    &&& !seg.contains('/')
}

/// A normalized archive path: the join of clean segments.
pub open spec fn is_normalized_path(p: Seq<char>) -> bool {
    exists|stack: Seq<Seq<char>>|
        (forall|k: int| 0 <= k < stack.len() ==> clean_segment(#[trigger] stack[k])) && p
            == join_slash(stack)
}

// ---------------------------------------------------------------------------
// Lemmas
// ---------------------------------------------------------------------------

proof fn lemma_strip_fragment(h: Seq<char>, i: int)
    requires
        0 <= i <= h.len(),
        forall|j: int| 0 <= j < i ==> !is_fragment_start(#[trigger] h[j]),
        i == h.len() || is_fragment_start(h[i]),
    ensures
        strip_fragment(h) == h.take(i),
    decreases i,
{
    if i == 0 {
        if h.len() == 0 {
            assert(h.take(0) =~= h);
        } else {
            assert(h.take(0) =~= Seq::<char>::empty());
        }
    } else {
        lemma_strip_fragment(h.drop_first(), i - 1);
        assert(seq![h[0]] + h.drop_first().take(i - 1) =~= h.take(i));
    }
}

proof fn lemma_percent_decode_step(b: Seq<u8>, i: int)
    requires
        0 <= i < b.len(),
    ensures
        percent_decode_bytes(b.skip(i)) == (if escape_at_start(b.skip(i)) {
            seq![(hex_digit(b[i + 1]).unwrap() * 16 + hex_digit(b[i + 2]).unwrap()) as u8]
                + percent_decode_bytes(b.skip(i + 3))
        } else {
            seq![b[i]] + percent_decode_bytes(b.skip(i + 1))
        }),
{
    let s = b.skip(i);
    if escape_at_start(s) {
        assert(s.skip(3) =~= b.skip(i + 3));
    } else {
        assert(s.drop_first() =~= b.skip(i + 1));
    }
}

proof fn lemma_last_index_of(s: Seq<char>, c: char, i: int)
    requires
        -1 <= i < s.len(),
        forall|j: int| i < j < s.len() ==> s[j] != c,
        i >= 0 ==> s[i] == c,
    ensures
        last_index_of(s, c) == i,
    decreases s.len(),
{
    if s.len() > 0 && s.len() - 1 != i {
        lemma_last_index_of(s.drop_last(), c, i);
    }
}

/// Characterizes [`last_index_of`] by the last position holding `c`.
pub proof fn lemma_last_index_of_pub(s: Seq<char>, c: char, i: int)
    requires
        -1 <= i < s.len(),
        forall|j: int| i < j < s.len() ==> s[j] != c,
        i >= 0 ==> s[i] == c,
    ensures
        last_index_of(s, c) == i,
{
    lemma_last_index_of(s, c, i);
}

proof fn lemma_split_slash_nonempty(s: Seq<char>)
    ensures
        split_slash(s).len() >= 1,
    decreases s.len(),
{
    if s.len() > 0 {
        lemma_split_slash_nonempty(s.drop_last());
    }
}

proof fn lemma_fold_segments_append(st: Seq<Seq<char>>, a: Seq<Seq<char>>, b: Seq<Seq<char>>)
    ensures
        fold_segments(st, a + b) == fold_segments(fold_segments(st, a), b),
    decreases b.len(),
{
    if b.len() == 0 {
        assert(a + b =~= a);
    } else {
        assert((a + b).drop_last() =~= a + b.drop_last());
        lemma_fold_segments_append(st, a, b.drop_last());
    }
}

/// Every stack produced by normalization holds only clean segments.
proof fn lemma_fold_clean(st: Seq<Seq<char>>, segs: Seq<Seq<char>>)
    requires
        forall|k: int| 0 <= k < st.len() ==> clean_segment(#[trigger] st[k]),
        forall|k: int| 0 <= k < segs.len() ==> !(#[trigger] segs[k]).contains('/'),
    ensures
        forall|k: int|
            0 <= k < fold_segments(st, segs).len() ==> clean_segment(
                #[trigger] fold_segments(st, segs)[k],
            ),
    decreases segs.len(),
{
    if segs.len() > 0 {
        lemma_fold_clean(st, segs.drop_last());
        let prev = fold_segments(st, segs.drop_last());
        let seg = segs.last();
        assert(!segs[segs.len() - 1].contains('/'));
        if !(seg.len() == 0 || seg == seq!['.']) && seg != seq!['.', '.'] {
            assert forall|k: int| 0 <= k < prev.push(seg).len() implies clean_segment(
                #[trigger] prev.push(seg)[k],
            ) by {
                if k < prev.len() {
                    assert(prev.push(seg)[k] == prev[k]);
                }
            }
        }
    }
}

/// Pushing clean segments one by one rebuilds the stack.
proof fn lemma_fold_clean_identity(st: Seq<Seq<char>>, segs: Seq<Seq<char>>)
    requires
        forall|k: int| 0 <= k < segs.len() ==> clean_segment(#[trigger] segs[k]),
    ensures
        fold_segments(st, segs) == st + segs,
    decreases segs.len(),
{
    if segs.len() == 0 {
        assert(st + segs =~= st);
    } else {
        lemma_fold_clean_identity(st, segs.drop_last());
        assert(clean_segment(segs[segs.len() - 1]));
        assert((st + segs.drop_last()).push(segs.last()) =~= st + segs);
    }
}

/// Every segment produced by splitting on `/` is free of `/`.
proof fn lemma_split_no_slash(s: Seq<char>)
    ensures
        forall|k: int|
            0 <= k < split_slash(s).len() ==> !(#[trigger] split_slash(s)[k]).contains('/'),
    decreases s.len(),
{
    if s.len() > 0 {
        lemma_split_no_slash(s.drop_last());
        lemma_split_slash_nonempty(s.drop_last());
        let p = split_slash(s.drop_last());
        if s.last() != '/' {
            let q = p.update(p.len() - 1, p.last().push(s.last()));
            assert forall|k: int| 0 <= k < q.len() implies !(#[trigger] q[k]).contains('/') by {
                if k == p.len() - 1 {
                    assert(!p[k].contains('/'));
                    if q[k].contains('/') {
                        let j = choose|j: int| 0 <= j < q[k].len() && q[k][j] == '/';
                        if j < p[k].len() {
                            assert(p[k][j] == '/');
                        }
                    }
                }
            }
        } else {
            let q = p.push(Seq::<char>::empty());
            assert forall|k: int| 0 <= k < q.len() implies !(#[trigger] q[k]).contains('/') by {
                if k < p.len() {
                    assert(q[k] == p[k]);
                }
            }
        }
    }
}

/// Splitting the join of clean segments gives them back.
proof fn lemma_split_join(stack: Seq<Seq<char>>)
    requires
        stack.len() > 0,
        forall|k: int| 0 <= k < stack.len() ==> clean_segment(#[trigger] stack[k]),
    ensures
        split_slash(join_slash(stack)) == stack,
    decreases stack.len(),
{
    if stack.len() == 1 {
        lemma_split_single(stack[0]);
        assert(seq![stack[0]] =~= stack);
    } else {
        let pre = stack.drop_last();
        let last = stack.last();
        assert(clean_segment(stack[stack.len() - 1]));
        assert forall|k: int| 0 <= k < pre.len() implies clean_segment(#[trigger] pre[k]) by {
            assert(pre[k] == stack[k]);
        }
        lemma_split_join(pre);
        lemma_split_append_segment(join_slash(pre), last);
        assert(pre.push(last) =~= stack);
    }
}

/// A segment without `/` splits into itself.
proof fn lemma_split_single(seg: Seq<char>)
    requires
        !seg.contains('/'),
    ensures
        split_slash(seg) == seq![seg],
    decreases seg.len(),
{
    if seg.len() == 0 {
        assert(seg =~= Seq::<char>::empty());
    } else {
        let pre = seg.drop_last();
        assert(!pre.contains('/')) by {
            if pre.contains('/') {
                let j = choose|j: int| 0 <= j < pre.len() && pre[j] == '/';
                assert(seg[j] == '/');
            }
        }
        lemma_split_single(pre);
        assert(seg.last() != '/') by {
            assert(seg[seg.len() - 1] == seg.last());
        }
        assert(pre.push(seg.last()) =~= seg);
        assert(split_slash(seg) == split_slash(pre).update(0, pre.push(seg.last())));
        assert(seq![pre].update(0, pre.push(seg.last())) =~= seq![seg]);
    }
}

/// Appending `/seg` to a path appends the segment to its split.
proof fn lemma_split_append_segment(p: Seq<char>, seg: Seq<char>)
    requires
        !seg.contains('/'),
    ensures
        split_slash(p + seq!['/'] + seg) == split_slash(p).push(seg),
    decreases seg.len(),
{
    if seg.len() == 0 {
        assert((p + seq!['/'] + seg).drop_last() =~= p);
        assert(p + seq!['/'] + seg =~= p.push('/'));
        assert(seg =~= Seq::<char>::empty());
    } else {
        let pre = seg.drop_last();
        assert(!pre.contains('/')) by {
            if pre.contains('/') {
                let j = choose|j: int| 0 <= j < pre.len() && pre[j] == '/';
                assert(seg[j] == '/');
            }
        }
        lemma_split_append_segment(p, pre);
        let w = p + seq!['/'] + seg;
        assert(w.drop_last() =~= p + seq!['/'] + pre);
        assert(w.last() == seg.last());
        assert(seg.last() != '/') by {
            assert(seg[seg.len() - 1] == seg.last());
        }
        let q = split_slash(p).push(pre);
        assert(pre.push(seg.last()) =~= seg);
        assert(q.last() == pre);
        assert(split_slash(w) == q.update(q.len() - 1, q.last().push(seg.last())));
        assert(q.update(q.len() - 1, q.last().push(seg.last())) =~= split_slash(p).push(seg));
    }
}

// ---------------------------------------------------------------------------
// Laws
// ---------------------------------------------------------------------------

/// Resolution always yields a normalized path: the join of segments that are
/// non-empty, not `.` or `..`, and contain no `/`.
pub proof fn lemma_resolve_is_normalized(base_file: Seq<char>, href: Seq<char>, decode: bool)
    ensures
        is_normalized_path(resolve_spec(base_file, href, decode)),
{
    let h0 = strip_fragment(href);
    let h = if decode {
        percent_decode(h0)
    } else {
        h0
    };
    let segs = resolve_segments(base_file, h);
    let dir = parent_dir_of(base_file);
    lemma_split_no_slash(h);
    lemma_split_no_slash(dir);
    assert forall|k: int| 0 <= k < segs.len() implies !(#[trigger] segs[k]).contains('/') by {
        if !(h.len() > 0 && h[0] == '/') && dir.len() != 0 {
            if k < split_slash(dir).len() {
                assert(segs[k] == split_slash(dir)[k]);
            } else {
                assert(segs[k] == split_slash(h)[k - split_slash(dir).len()]);
            }
        } else if !(h.len() > 0 && h[0] == '/') {
            assert(segs[k] == split_slash(h)[k - 0]);
        }
    }
    let stack = fold_segments(Seq::empty(), segs);
    lemma_fold_clean(Seq::empty(), segs);
    assert(forall|k: int| 0 <= k < stack.len() ==> clean_segment(#[trigger] stack[k]));
}

/// Normalization is idempotent: re-resolving an already resolved literal path
/// against an archive-root base gives the same path back, provided the path
/// carries no `#` or `?` (which resolution would read as a fragment or query).
pub proof fn lemma_resolve_raw_idempotent(base_file: Seq<char>, href: Seq<char>, root: Seq<char>)
    requires
        !resolve_spec(base_file, href, false).contains('#'),
        !resolve_spec(base_file, href, false).contains('?'),
        !root.contains('/'),
    ensures
        resolve_spec(root, resolve_spec(base_file, href, false), false) == resolve_spec(
            base_file,
            href,
            false,
        ),
{
    let r = resolve_spec(base_file, href, false);
    lemma_resolve_is_normalized(base_file, href, false);
    let stack = choose|stack: Seq<Seq<char>>|
        (forall|k: int| 0 <= k < stack.len() ==> clean_segment(#[trigger] stack[k])) && r
            == join_slash(stack);
    lemma_strip_fragment(r, r.len() as int);
    assert(r.take(r.len() as int) =~= r);
    lemma_last_index_of(root, '/', -1);
    assert(parent_dir_of(root) =~= Seq::<char>::empty());
    if stack.len() == 0 {
        assert(r =~= Seq::<char>::empty());
        assert(resolve_segments(root, r) =~= seq![Seq::<char>::empty()]);
        let one = seq![Seq::<char>::empty()];
        assert(one.drop_last() =~= Seq::<Seq<char>>::empty());
        assert(fold_segments(Seq::empty(), one.drop_last()) == Seq::<Seq<char>>::empty());
        assert(fold_segments(Seq::empty(), one) == push_segment(Seq::empty(), one.last()));
    } else {
        lemma_split_join(stack);
        assert(clean_segment(stack[0]));
        lemma_join_first(stack);
        assert(resolve_segments(root, r) =~= stack);
        lemma_fold_clean_identity(Seq::empty(), stack);
        assert(Seq::<Seq<char>>::empty() + stack =~= stack);
    }
}

/// The join of segments starts with the first segment.
proof fn lemma_percent_decode_bytes_plain(b: Seq<u8>)
    requires
        forall|i: int| 0 <= i < b.len() ==> #[trigger] b[i] != 0x25,
    ensures
        percent_decode_bytes(b) == b,
    decreases b.len(),
{
    if b.len() > 0 {
        lemma_percent_decode_bytes_plain(b.drop_first());
        assert(seq![b[0]] + b.drop_first() =~= b);
    }
}

proof fn lemma_encode_without_percent(s: Seq<char>)
    requires
        !s.contains('%'),
    ensures
        forall|i: int|
            0 <= i < vstd::utf8::encode_utf8(s).len() ==> #[trigger] vstd::utf8::encode_utf8(s)[i]
                != 0x25,
    decreases s.len(),
{
    if s.len() > 0 {
        let t = s.drop_first();
        assert(!t.contains('%')) by {
            if t.contains('%') {
                let j = choose|j: int| 0 <= j < t.len() && t[j] == '%';
                assert(s[j + 1] == '%');
            }
        }
        lemma_encode_without_percent(t);
        let x = s[0] as u32;
        assert(s[0] != '%');
        assert(x != 0x25) by {
            vstd::utf8::char_u32_cast(s[0], x);
            if x == 0x25 {
                vstd::utf8::char_u32_cast('%', 0x25);
            }
        }
        vstd::utf8::char_is_scalar(s[0]);
        let e = vstd::utf8::encode_scalar(x);
        assert(forall|i: int| 0 <= i < e.len() ==> #[trigger] e[i] != 0x25) by {
            assert(x <= 0x7F && x != 0x25 ==> (x & 0x7F) as u8 != 0x25) by (bit_vector);
            assert(forall|y: u8| (0xC0u8 | y) != 0x25u8) by (bit_vector);
            assert(forall|y: u8| (0xE0u8 | y) != 0x25u8) by (bit_vector);
            assert(forall|y: u8| (0xF0u8 | y) != 0x25u8) by (bit_vector);
            assert(forall|y: u8| (0x80u8 | y) != 0x25u8) by (bit_vector);
        }
        let all = vstd::utf8::encode_utf8(s);
        assert(all =~= e + vstd::utf8::encode_utf8(t));
        assert forall|i: int| 0 <= i < all.len() implies #[trigger] all[i] != 0x25 by {
            if i < e.len() {
                assert(all[i] == e[i]);
            } else {
                assert(all[i] == vstd::utf8::encode_utf8(t)[i - e.len()]);
            }
        }
    }
}

/// Decoding changes nothing in an href without `%`: there, resolution with and
/// without percent-decoding agree.
pub proof fn lemma_resolve_without_percent(base_file: Seq<char>, href: Seq<char>)
    requires
        !href.contains('%'),
    ensures
        resolve_spec(base_file, href, true) == resolve_spec(base_file, href, false),
{
    let h0 = strip_fragment(href);
    lemma_strip_fragment_sub(href);
    assert(!h0.contains('%')) by {
        if h0.contains('%') {
            let j = choose|j: int| 0 <= j < h0.len() && h0[j] == '%';
            assert(href[j] == '%');
        }
    }
    lemma_encode_without_percent(h0);
    let b = vstd::utf8::encode_utf8(h0);
    lemma_percent_decode_bytes_plain(b);
    vstd::utf8::encode_utf8_valid_utf8(h0);
    vstd::utf8::encode_utf8_decode_utf8(h0);
    if b.len() > 0 && b[0] < 0x80 {
        lemma_encode_ascii_first(h0);
        let t = h0.drop_first();
        vstd::utf8::encode_utf8_valid_utf8(t);
        vstd::utf8::encode_utf8_decode_utf8(t);
        assert(seq![h0[0]] + t =~= h0);
    }
}

/// The encoding of a sequence whose first byte is ASCII: that byte is the
/// first character, and the rest encodes the rest.
proof fn lemma_encode_ascii_first(s: Seq<char>)
    requires
        vstd::utf8::encode_utf8(s).len() > 0,
        vstd::utf8::encode_utf8(s)[0] < 0x80,
    ensures
        s.len() > 0,
        (vstd::utf8::encode_utf8(s)[0] as char) == s[0],
        vstd::utf8::encode_utf8(s).skip(1) == vstd::utf8::encode_utf8(s.drop_first()),
{
    let x = s[0] as u32;
    vstd::utf8::char_is_scalar(s[0]);
    let e = vstd::utf8::encode_scalar(x);
    assert(vstd::utf8::encode_utf8(s) == e + vstd::utf8::encode_utf8(s.drop_first()));
    assert(e[0] == vstd::utf8::encode_utf8(s)[0]);
    assert(forall|y: u8| (0xC0u8 | y) >= 0x80u8) by (bit_vector);
    assert(forall|y: u8| (0xE0u8 | y) >= 0x80u8) by (bit_vector);
    assert(forall|y: u8| (0xF0u8 | y) >= 0x80u8) by (bit_vector);
    assert(vstd::utf8::has_width_1_encoding(x));
    assert(x <= 0x7F ==> (x & 0x7F) as u8 == x as u8 && (x & 0x7F) == x) by (bit_vector);
    vstd::utf8::char_u32_cast(s[0], x);
    assert(e =~= seq![(x & 0x7F) as u8]);
    assert(vstd::utf8::encode_utf8(s).skip(1) =~= vstd::utf8::encode_utf8(s.drop_first()));
}

proof fn lemma_encode_slash_first(s: Seq<char>)
    requires
        s.len() > 0 && s[0] == '/',
    ensures
        vstd::utf8::encode_utf8(s).len() > 0 && vstd::utf8::encode_utf8(s)[0] == 0x2F,
{
    let x = s[0] as u32;
    vstd::utf8::char_u32_cast(s[0], x);
    vstd::utf8::char_u32_cast('/', 0x2F);
    assert(x == 0x2F);
    assert((0x2Fu32 & 0x7F) as u8 == 0x2Fu8) by (bit_vector);
    let e = vstd::utf8::encode_scalar(x);
    assert(vstd::utf8::encode_utf8(s) == e + vstd::utf8::encode_utf8(s.drop_first()));
    assert(e[0] == vstd::utf8::encode_utf8(s)[0]);
}

proof fn lemma_percent_decode_bytes_first(b: Seq<u8>)
    requires
        b.len() > 0 && b[0] == 0x2F,
    ensures
        percent_decode_bytes(b).len() > 0 && percent_decode_bytes(b)[0] == 0x2F,
{
    assert(!escape_at_start(b));
}

proof fn lemma_strip_fragment_sub(h: Seq<char>)
    ensures
        strip_fragment(h).len() <= h.len(),
        forall|j: int| 0 <= j < strip_fragment(h).len() ==> #[trigger] strip_fragment(h)[j] == h[j],
        h.len() > 0 && !is_fragment_start(h[0]) ==> strip_fragment(h).len() > 0
            && strip_fragment(h)[0] == h[0],
    decreases h.len(),
{
    if h.len() > 0 && !is_fragment_start(h[0]) {
        lemma_strip_fragment_sub(h.drop_first());
        let t = strip_fragment(h.drop_first());
        assert forall|j: int| 0 <= j < strip_fragment(h).len() implies #[trigger] strip_fragment(
            h,
        )[j] == h[j] by {
            if j > 0 {
                assert(strip_fragment(h)[j] == t[j - 1]);
            }
        }
    }
}

/// An href that starts with `/` is taken from the archive root, decoded or
/// not: the base file plays no part, and the result never starts with `/`.
pub proof fn lemma_absolute_href_ignores_base(base_file: Seq<char>, href: Seq<char>, decode: bool)
    requires
        href.len() > 0 && href[0] == '/',
    ensures
        resolve_spec(base_file, href, decode) == resolve_spec(Seq::empty(), href, decode),
        resolve_spec(base_file, href, decode).len() > 0 ==> resolve_spec(base_file, href, decode)[0]
            != '/',
{
    lemma_strip_fragment_sub(href);
    if decode {
        let h0 = strip_fragment(href);
        lemma_encode_slash_first(h0);
        let b = vstd::utf8::encode_utf8(h0);
        lemma_percent_decode_bytes_first(b);
    }
    lemma_resolve_is_normalized(base_file, href, decode);
    let r = resolve_spec(base_file, href, decode);
    if r.len() > 0 {
        let stack = choose|stack: Seq<Seq<char>>|
            (forall|k: int| 0 <= k < stack.len() ==> clean_segment(#[trigger] stack[k])) && r
                == join_slash(stack);
        if stack.len() == 0 {
            assert(join_slash(stack) =~= Seq::<char>::empty());
        } else {
            assert(clean_segment(stack[0]));
            lemma_join_first(stack);
            if stack[0][0] == '/' {
                assert(stack[0].contains('/'));
            }
        }
    }
}

proof fn lemma_join_first(stack: Seq<Seq<char>>)
    requires
        stack.len() > 0,
        stack[0].len() > 0,
    ensures
        join_slash(stack).len() > 0,
        join_slash(stack)[0] == stack[0][0],
    decreases stack.len(),
{
    if stack.len() > 1 {
        lemma_join_first(stack.drop_last());
    }
}

// ---------------------------------------------------------------------------
// Executable code
// ---------------------------------------------------------------------------

/// Resolve a (possibly relative) href against the directory of a base file,
/// both expressed as forward-slash zip-archive paths.
///
/// EPUB hrefs are URLs relative to the document that contains them. This handles
/// `.` and `..` segments, strips any URL fragment / query and percent-decodes
/// `%XX` escapes. Hrefs beginning with `/` are taken from the archive root.
pub fn resolve_href(base_file: &str, href: &str) -> (r: String)
    ensures
        r@ == resolve_spec(base_file@, href@, true),
{
    resolve_href_impl(base_file, href, true)
}

/// Like [`resolve_href`] but without percent-decoding: the href is treated as a
/// literal path. Used as a fallback for archives whose entry names literally
/// contain a percent sequence.
pub fn resolve_href_raw(base_file: &str, href: &str) -> (r: String)
    ensures
        r@ == resolve_spec(base_file@, href@, false),
{
    resolve_href_impl(base_file, href, false)
}

fn resolve_href_impl(base_file: &str, href: &str, decode: bool) -> (r: String)
    ensures
        r@ == resolve_spec(base_file@, href@, decode),
{
    let hv = chars_of(href);
    // Drop fragment and query from the href.
    let mut cut: usize = 0;
    while cut < hv.len() && !(hv[cut] == '#' || hv[cut] == '?')
        invariant
            cut <= hv@.len(),
            forall|j: int| 0 <= j < cut ==> !is_fragment_start(#[trigger] hv@[j]),
        decreases hv@.len() - cut,
    {
        cut = cut + 1;
    }
    proof {
        lemma_strip_fragment(hv@, cut as int);
    }
    let mut h0: Vec<char> = Vec::new();
    let mut k: usize = 0;
    while k < cut
        invariant
            cut <= hv@.len(),
            k <= cut,
            h0@ == hv@.take(k as int),
        decreases cut - k,
    {
        h0.push(hv[k]);
        assert(hv@.take(k + 1) =~= hv@.take(k as int).push(hv@[k as int]));
        k = k + 1;
    }
    let h: Vec<char> = if decode {
        let s = string_of(h0.as_slice());
        let d = percent_decode_str(s.as_str());
        chars_of(d.as_str())
    } else {
        h0
    };
    let mut segs: Vec<Vec<char>> = Vec::new();
    if h.len() > 0 && h[0] == '/' {
        segs = split_on_slash(h.as_slice());
    } else {
        let base = chars_of(base_file);
        let dir = parent_dir_chars(base.as_slice());
        if dir.len() > 0 {
            segs = split_on_slash(dir.as_slice());
        }
        let mut rest = split_on_slash(h.as_slice());
        let ghost before = segs@;
        segs.append(&mut rest);
        proof {
            assert(segs@.map_values(|v: Vec<char>| v@) =~= before.map_values(|v: Vec<char>| v@)
                + split_slash(h@));
        }
    }
    let stack = normalize_segments(&segs);
    let joined = join_with_slash(&stack);
    string_of(joined.as_slice())
}

/// Decode `%XX` percent-escapes in a URL path. Invalid or truncated escapes are
/// left as-is. Decoded bytes are interpreted as UTF-8 (lossily).
fn percent_decode_str(s: &str) -> (r: String)
    ensures
        r@ == percent_decode(s@),
{
    let bytes = s.as_bytes();
    let ghost b = bytes@;
    let mut out: Vec<u8> = Vec::new();
    let mut i: usize = 0;
    assert(b.skip(0) =~= b);
    while i < bytes.len()
        invariant
            b == bytes@,
            i <= b.len(),
            percent_decode_bytes(b) == out@ + percent_decode_bytes(b.skip(i as int)),
        decreases b.len() - i,
    {
        proof {
            lemma_percent_decode_step(b, i as int);
        }
        if bytes[i] == 0x25 && bytes.len() - i > 2 {
            let hi = hex_val(bytes[i + 1]);
            let lo = hex_val(bytes[i + 2]);
            if let (Some(hi), Some(lo)) = (hi, lo) {
                out.push(hi * 16 + lo);
                proof {
                    assert(escape_at_start(b.skip(i as int)));
                }
                i = i + 3;
                continue;
            }
        }
        out.push(bytes[i]);
        i = i + 1;
    }
    assert(b.skip(b.len() as int) =~= Seq::<u8>::empty());
    assert(out@ + Seq::<u8>::empty() =~= out@);
    // Lossy decoding reads a leading ASCII byte as its own character whatever
    // follows, so it is split off before the rest is decoded.
    if out.len() > 0 && out[0] < 0x80 {
        let mut rest: Vec<u8> = Vec::new();
        let mut k: usize = 1;
        while k < out.len()
            invariant
                1 <= k <= out@.len(),
                rest@ == out@.subrange(1, k as int),
            decreases out@.len() - k,
        {
            rest.push(out[k]);
            assert(out@.subrange(1, k + 1) =~= out@.subrange(1, k as int).push(out@[k as int]));
            k = k + 1;
        }
        assert(rest@ =~= out@.skip(1));
        let tail = decode_utf8_lossy(rest.as_slice());
        let mut v: Vec<char> = Vec::new();
        v.push(out[0] as char);
        extend_str(&mut v, tail.as_str());
        assert(v@ =~= seq![out@[0] as char] + tail@);
        string_of(v.as_slice())
    } else {
        decode_utf8_lossy(out.as_slice())
    }
}

fn hex_val(b: u8) -> (r: Option<u8>)
    ensures
        r == hex_digit(b),
        r matches Some(v) ==> v < 16,
{
    if 0x30 <= b && b <= 0x39 {
        Some(b - 0x30)
    } else if 0x61 <= b && b <= 0x66 {
        Some(b - 0x61 + 10)
    } else if 0x41 <= b && b <= 0x46 {
        Some(b - 0x41 + 10)
    } else {
        None
    }
}

/// The characters before the last `/` (or none).
fn parent_dir_chars(p: &[char]) -> (r: Vec<char>)
    ensures
        r@ == parent_dir_of(p@),
{
    let mut i: usize = p.len();
    while i > 0 && p[i - 1] != '/'
        invariant
            i <= p@.len(),
            forall|j: int| i <= j < p@.len() ==> p@[j] != '/',
        decreases i,
    {
        i = i - 1;
    }
    proof {
        lemma_last_index_of(p@, '/', i - 1);
    }
    let mut out: Vec<char> = Vec::new();
    if i > 0 {
        let mut k: usize = 0;
        while k < i - 1
            invariant
                0 < i <= p@.len(),
                k <= i - 1,
                out@ == p@.take(k as int),
            decreases i - 1 - k,
        {
            out.push(p[k]);
            assert(p@.take(k + 1) =~= p@.take(k as int).push(p@[k as int]));
            k = k + 1;
        }
    }
    out
}

/// `s.split('/')` as owned character vectors.
fn split_on_slash(s: &[char]) -> (r: Vec<Vec<char>>)
    ensures
        r@.map_values(|v: Vec<char>| v@) == split_slash(s@),
{
    let mut out: Vec<Vec<char>> = Vec::new();
    out.push(Vec::new());
    assert(out@.map_values(|v: Vec<char>| v@) =~= split_slash(s@.take(0)));
    let mut i: usize = 0;
    while i < s.len()
        invariant
            i <= s@.len(),
            out@.len() >= 1,
            out@.map_values(|v: Vec<char>| v@) == split_slash(s@.take(i as int)),
        decreases s@.len() - i,
    {
        let c = s[i];
        let ghost pre = out@.map_values(|v: Vec<char>| v@);
        assert(s@.take(i + 1).drop_last() =~= s@.take(i as int));
        if c == '/' {
            out.push(Vec::new());
            assert(out@.map_values(|v: Vec<char>| v@) =~= pre.push(Seq::<char>::empty()));
        } else {
            let last = out.len() - 1;
            let mut cur = out.pop().unwrap();
            cur.push(c);
            out.push(cur);
            assert(out@.map_values(|v: Vec<char>| v@) =~= pre.update(
                pre.len() - 1,
                pre.last().push(c),
            ));
        }
        i = i + 1;
    }
    assert(s@.take(s@.len() as int) =~= s@);
    out
}

/// Applies [`push_segment`] to every segment in order, starting from an empty stack.
fn normalize_segments(segs: &Vec<Vec<char>>) -> (r: Vec<Vec<char>>)
    ensures
        r@.map_values(|v: Vec<char>| v@) == fold_segments(
            Seq::empty(),
            segs@.map_values(|v: Vec<char>| v@),
        ),
{
    let ghost all = segs@.map_values(|v: Vec<char>| v@);
    let mut stack: Vec<Vec<char>> = Vec::new();
    let mut i: usize = 0;
    assert(all.take(0) =~= Seq::<Seq<char>>::empty());
    while i < segs.len()
        invariant
            i <= segs@.len(),
            all == segs@.map_values(|v: Vec<char>| v@),
            stack@.map_values(|v: Vec<char>| v@) == fold_segments(
                Seq::empty(),
                all.take(i as int),
            ),
        decreases segs@.len() - i,
    {
        let seg = &segs[i];
        let ghost pre = stack@.map_values(|v: Vec<char>| v@);
        assert(all.take(i + 1).drop_last() =~= all.take(i as int));
        assert(all.take(i + 1).last() == seg@);
        let is_dot = seg.len() == 1 && seg[0] == '.';
        let is_dotdot = seg.len() == 2 && seg[0] == '.' && seg[1] == '.';
        proof {
            assert(is_dot == (seg@ == seq!['.'])) by {
                if seg@.len() == 1 && seg@[0] == '.' {
                    assert(seg@ =~= seq!['.']);
                }
            }
            assert(is_dotdot == (seg@ == seq!['.', '.'])) by {
                if seg@.len() == 2 && seg@[0] == '.' && seg@[1] == '.' {
                    assert(seg@ =~= seq!['.', '.']);
                }
            }
        }
        if seg.len() == 0 || is_dot {
        } else if is_dotdot {
            if stack.len() > 0 {
                stack.pop();
                assert(stack@.map_values(|v: Vec<char>| v@) =~= pre.drop_last());
            }
        } else {
            stack.push(seg.clone());
            assert(stack@.map_values(|v: Vec<char>| v@) =~= pre.push(seg@));
        }
        i = i + 1;
    }
    assert(all.take(segs@.len() as int) =~= all);
    stack
}

/// Joins segments with `/`.
fn join_with_slash(segs: &Vec<Vec<char>>) -> (r: Vec<char>)
    ensures
        r@ == join_slash(segs@.map_values(|v: Vec<char>| v@)),
{
    let ghost all = segs@.map_values(|v: Vec<char>| v@);
    let mut out: Vec<char> = Vec::new();
    let mut i: usize = 0;
    while i < segs.len()
        invariant
            i <= segs@.len(),
            all == segs@.map_values(|v: Vec<char>| v@),
            out@ == join_slash(all.take(i as int)),
        decreases segs@.len() - i,
    {
        assert(all.take(i + 1).drop_last() =~= all.take(i as int));
        if i > 0 {
            out.push('/');
        }
        extend_chars(&mut out, segs[i].as_slice());
        proof {
            if i == 0 {
                assert(Seq::<char>::empty() + all[0] =~= all[0]);
            }
        }
        i = i + 1;
    }
    assert(all.take(segs@.len() as int) =~= all);
    out
}

/// The directory portion of an archive path (no trailing slash), or "" if none.
pub fn parent_dir(path: &str) -> (r: &str)
    ensures
        r@ == parent_dir_of(path@),
{
    let p = chars_of(path);
    let mut i: usize = p.len();
    while i > 0 && p[i - 1] != '/'
        invariant
            i <= p@.len(),
            forall|j: int| i <= j < p@.len() ==> p@[j] != '/',
        decreases i,
    {
        i = i - 1;
    }
    proof {
        lemma_last_index_of(p@, '/', i - 1);
    }
    if i == 0 {
        path.substring_char(0, 0)
    } else {
        path.substring_char(0, i - 1)
    }
}

} // verus!
