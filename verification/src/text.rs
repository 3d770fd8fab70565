//! Path-string helpers: uppercase hex rendering, separator handling, path
//! splitting, lexicographic comparison, and relative-path computation.
//!
//! Paths here are plain strings. Both `/` and `\` count as separators, and a
//! path is taken as absolute when it is rooted at a separator or at a drive
//! prefix such as `C:/`.

use vstd::prelude::*;
use crate::error::Error;

verus! {

/// Is `c` a path separator?
pub open spec fn is_sep(c: char) -> bool {
    c == '/' || c == '\\'
}

/// The uppercase hex digit for a value below 16.
pub open spec fn hex_digit_char(d: u64) -> char {
    if d == 0 { '0' } else if d == 1 { '1' } else if d == 2 { '2' }
    else if d == 3 { '3' } else if d == 4 { '4' } else if d == 5 { '5' }
    else if d == 6 { '6' } else if d == 7 { '7' } else if d == 8 { '8' }
    else if d == 9 { '9' } else if d == 10 { 'A' } else if d == 11 { 'B' }
    else if d == 12 { 'C' } else if d == 13 { 'D' } else if d == 14 { 'E' }
    else { 'F' }
}

/// `h` in uppercase hex, left-padded with zeros to at least `width` digits.
pub open spec fn spec_hex(h: u64, width: nat) -> Seq<char>
    decreases h, width,
{
    if h == 0 && width == 0 {
        Seq::empty()
    } else {
        spec_hex(h / 16, if width == 0 { 0 } else { (width - 1) as nat }).push(
            hex_digit_char(h % 16),
        )
    }
}

/// A one-character string slice holding the uppercase hex digit for `d`.
fn hex_digit_str(d: u64) -> (r: &'static str)
    requires
        d < 16,
    ensures
        r@ == seq![hex_digit_char(d)],
{
    proof {
        reveal_strlit("0"); reveal_strlit("1"); reveal_strlit("2");
        reveal_strlit("3"); reveal_strlit("4"); reveal_strlit("5");
        reveal_strlit("6"); reveal_strlit("7"); reveal_strlit("8");
        reveal_strlit("9"); reveal_strlit("A"); reveal_strlit("B");
        reveal_strlit("C"); reveal_strlit("D"); reveal_strlit("E");
        reveal_strlit("F");
    }
    let r = match d {
        0 => "0", 1 => "1", 2 => "2", 3 => "3",
        4 => "4", 5 => "5", 6 => "6", 7 => "7",
        8 => "8", 9 => "9", 10 => "A", 11 => "B",
        12 => "C", 13 => "D", 14 => "E", _ => "F",
    };
    proof {
        assert(r@ =~= seq![hex_digit_char(d)]);
    }
    r
}

/// Render `h` in uppercase hex with at least `width` digits.
pub fn hex_string(h: u64, width: usize) -> (r: String)
    ensures
        r@ == spec_hex(h, width as nat),
    decreases h, width,
{
    if h == 0 && width == 0 {
        String::new()
    } else {
        let rest = hex_string(h / 16, if width == 0 { 0 } else { width - 1 });
        let r = rest.concat(hex_digit_str(h % 16));
        proof {
            assert(r@ =~= spec_hex(h, width as nat));
        }
        r
    }
}

/// The synthetic display path of an entry whose hash is absent from the
/// filename table: `_Unknown/` followed by the hash in uppercase hex,
/// at least eight digits wide.
pub open spec fn spec_unknown_path(hash: u64) -> Seq<char> {
    "_Unknown/"@ + spec_hex(hash, 8)
}

/// Build the synthetic display path for an unresolved hash.
pub fn unknown_path(hash: u64) -> (r: String)
    ensures
        r@ == spec_unknown_path(hash),
{
    let mut r = String::from_str("_Unknown/");
    r.append(hex_string(hash, 8).as_str());
    r
}

/// Split `s` at separators, dropping empty segments; `cur` is the segment
/// being accumulated.
pub open spec fn split_acc(s: Seq<char>, cur: Seq<char>) -> Seq<Seq<char>>
    decreases s.len(),
{
    if s.len() == 0 {
        if cur.len() == 0 { Seq::empty() } else { seq![cur] }
    } else if is_sep(s[0]) {
        (if cur.len() == 0 { Seq::<Seq<char>>::empty() } else { seq![cur] }) + split_acc(
            s.skip(1),
            Seq::empty(),
        )
    } else {
        split_acc(s.skip(1), cur.push(s[0]))
    }
}

/// The segments of a path: maximal runs of non-separator characters.
pub open spec fn spec_split_path(s: Seq<char>) -> Seq<Seq<char>> {
    split_acc(s, Seq::empty())
}

/// Split a path string into its segments. Runs of separators, and leading or
/// trailing separators, produce no empty segments.
pub fn split_path(s: &str) -> (r: Vec<String>)
    ensures
        r.deep_view() == spec_split_path(s@),
{
    let n = s.unicode_len();
    let mut segs: Vec<String> = Vec::new();
    let mut cur = String::new();
    let mut i: usize = 0;
    proof {
        assert(s@.skip(0) =~= s@);
        assert(Seq::<Seq<char>>::empty() + split_acc(s@, Seq::empty()) =~= split_acc(
            s@,
            Seq::empty(),
        ));
    }
    while i < n
        invariant
            i <= n,
            n == s@.len(),
            spec_split_path(s@) == segs.deep_view() + split_acc(s@.skip(i as int), cur@),
        decreases n - i,
    {
        let ghost rest = s@.skip(i as int);
        let ghost prev_cur = cur@;
        let ghost prev_dv = segs.deep_view();
        let c = s.get_char(i);
        proof {
            assert(rest[0] == s@[i as int]);
            assert(rest.skip(1) =~= s@.skip(i as int + 1));
        }
        if c == '/' || c == '\\' {
            if !cur.as_str().is_empty() {
                segs.push(cur);
                cur = String::new();
                proof {
                    assert(segs.deep_view() =~= prev_dv.push(prev_cur));
                    assert(split_acc(rest, prev_cur) == seq![prev_cur] + split_acc(
                        s@.skip(i as int + 1),
                        Seq::empty(),
                    ));
                    assert(prev_dv + (seq![prev_cur] + split_acc(
                        s@.skip(i as int + 1),
                        Seq::empty(),
                    )) =~= prev_dv.push(prev_cur) + split_acc(
                        s@.skip(i as int + 1),
                        Seq::empty(),
                    ));
                }
            } else {
                proof {
                    assert(prev_cur =~= Seq::<char>::empty());
                    assert(split_acc(rest, prev_cur) == Seq::<Seq<char>>::empty() + split_acc(
                        s@.skip(i as int + 1),
                        Seq::empty(),
                    ));
                    assert(Seq::<Seq<char>>::empty() + split_acc(
                        s@.skip(i as int + 1),
                        Seq::empty(),
                    ) =~= split_acc(s@.skip(i as int + 1), Seq::empty()));
                }
            }
        } else {
            let piece = s.substring_char(i, i + 1);
            proof {
                assert(piece@ =~= seq![s@[i as int]]);
            }
            cur.append(piece);
            proof {
                assert(cur@ =~= prev_cur.push(s@[i as int]));
                assert(split_acc(rest, prev_cur) == split_acc(
                    s@.skip(i as int + 1),
                    prev_cur.push(s@[i as int]),
                ));
            }
        }
        i = i + 1;
    }
    proof {
        assert(s@.skip(n as int) =~= Seq::<char>::empty());
    }
    let ghost prev_dv = segs.deep_view();
    let ghost last_cur = cur@;
    if !cur.as_str().is_empty() {
        segs.push(cur);
        proof {
            assert(segs.deep_view() =~= prev_dv.push(last_cur));
            assert(prev_dv + seq![last_cur] =~= prev_dv.push(last_cur));
        }
    } else {
        proof {
            assert(last_cur =~= Seq::<char>::empty());
            assert(prev_dv + split_acc(Seq::<char>::empty(), last_cur) =~= prev_dv);
        }
    }
    segs
}

/// Splitting walks a separator-free run into the current segment.
proof fn lemma_split_acc_no_sep(s: Seq<char>, t: Seq<char>, cur: Seq<char>)
    requires
        forall|k: int| 0 <= k < s.len() ==> !is_sep(s[k]),
    ensures
        split_acc(s + t, cur) == split_acc(t, cur + s),
    decreases s.len(),
{
    if s.len() == 0 {
        assert(s + t =~= t);
        assert(cur + s =~= cur);
    } else {
        assert((s + t)[0] == s[0]);
        assert((s + t).skip(1) =~= s.skip(1) + t);
        assert(cur.push(s[0]) + s.skip(1) =~= cur + s);
        assert forall|k: int| 0 <= k < s.skip(1).len() implies !is_sep(s.skip(1)[k]) by {
            assert(s.skip(1)[k] == s[k + 1]);
        }
        lemma_split_acc_no_sep(s.skip(1), t, cur.push(s[0]));
    }
}

/// A path of the shape `A/B`, with `A` and `B` separator-free and non-empty,
/// splits into exactly the two segments `A` and `B`.
pub proof fn lemma_split_two_segments(a: Seq<char>, b: Seq<char>)
    requires
        a.len() > 0,
        b.len() > 0,
        forall|k: int| 0 <= k < a.len() ==> !is_sep(a[k]),
        forall|k: int| 0 <= k < b.len() ==> !is_sep(b[k]),
    ensures
        spec_split_path(a + seq!['/'] + b) == seq![a, b],
{
    let s = a + seq!['/'] + b;
    assert(a + (seq!['/'] + b) =~= s);
    lemma_split_acc_no_sep(a, seq!['/'] + b, Seq::empty());
    assert(Seq::<char>::empty() + a =~= a);
    assert((seq!['/'] + b)[0] == '/');
    assert((seq!['/'] + b).skip(1) =~= b);
    assert(b + Seq::<char>::empty() =~= b);
    lemma_split_acc_no_sep(b, Seq::empty(), Seq::empty());
    assert(Seq::<char>::empty() + b =~= b);
    assert(split_acc(Seq::<char>::empty(), b) == seq![b]);
    assert(split_acc(seq!['/'] + b, a) == seq![a] + seq![b]);
    assert(seq![a] + seq![b] =~= seq![a, b]);
}

/// Every digit of a hex rendering is a hex digit, never a separator.
pub proof fn lemma_hex_no_sep(h: u64, width: nat)
    ensures
        forall|k: int| 0 <= k < spec_hex(h, width).len() ==> !is_sep(spec_hex(h, width)[k]),
    decreases h, width,
{
    if !(h == 0 && width == 0) {
        let rest = spec_hex(h / 16, if width == 0 { 0 } else { (width - 1) as nat });
        lemma_hex_no_sep(h / 16, if width == 0 { 0 } else { (width - 1) as nat });
        assert forall|k: int| 0 <= k < spec_hex(h, width).len() implies !is_sep(
            spec_hex(h, width)[k],
        ) by {
            if k < rest.len() {
                assert(spec_hex(h, width)[k] == rest[k]);
            } else {
                assert(spec_hex(h, width)[k] == hex_digit_char(h % 16));
            }
        }
    }
}

/// A hex rendering has at least `width` digits, and at least one.
pub proof fn lemma_hex_len(h: u64, width: nat)
    ensures
        spec_hex(h, width).len() >= width,
        h > 0 || width > 0 ==> spec_hex(h, width).len() >= 1,
    decreases h, width,
{
    if !(h == 0 && width == 0) {
        lemma_hex_len(h / 16, if width == 0 { 0 } else { (width - 1) as nat });
    }
}

/// The synthetic path of `hash` splits into the `_Unknown` directory and the
/// hex file name.
pub proof fn lemma_unknown_path_segments(hash: u64)
    ensures
        spec_split_path(spec_unknown_path(hash)) == seq!["_Unknown"@, spec_hex(hash, 8)],
{
    reveal_strlit("_Unknown/");
    reveal_strlit("_Unknown");
    let a = "_Unknown"@;
    let b = spec_hex(hash, 8);
    assert(a.len() == 8);
    assert("_Unknown/"@.len() == 9);
    assert forall|k: int| 0 <= k < a.len() implies !is_sep(a[k]) by {
        assert(a[0] == '_');
        assert(a[1] == 'U');
        assert(a[2] == 'n');
        assert(a[3] == 'k');
        assert(a[4] == 'n');
        assert(a[5] == 'o');
        assert(a[6] == 'w');
        assert(a[7] == 'n');
    }
    lemma_hex_no_sep(hash, 8);
    lemma_hex_len(hash, 8);
    lemma_split_two_segments(a, b);
    assert(spec_unknown_path(hash) =~= a + seq!['/'] + b);
}

/// Lexicographic order on character sequences, by code point, with a prefix
/// ordered before its extensions.
pub open spec fn lex_le(a: Seq<char>, b: Seq<char>) -> bool
    decreases a.len(),
{
    if a.len() == 0 {
        true
    } else if b.len() == 0 {
        false
    } else if a[0] == b[0] {
        lex_le(a.skip(1), b.skip(1))
    } else {
        (a[0] as u32) < (b[0] as u32)
    }
}

proof fn lemma_char_inj(x: char, y: char)
    requires
        x != y,
    ensures
        x as u32 != y as u32,
{
}

/// Any two sequences are ordered one way or the other.
pub proof fn lemma_lex_le_total(a: Seq<char>, b: Seq<char>)
    ensures
        lex_le(a, b) || lex_le(b, a),
    decreases a.len(),
{
    if a.len() != 0 && b.len() != 0 {
        if a[0] == b[0] {
            lemma_lex_le_total(a.skip(1), b.skip(1));
        } else {
            lemma_char_inj(a[0], b[0]);
        }
    }
}

/// The order is transitive.
pub proof fn lemma_lex_le_trans(a: Seq<char>, b: Seq<char>, c: Seq<char>)
    requires
        lex_le(a, b),
        lex_le(b, c),
    ensures
        lex_le(a, c),
    decreases a.len(),
{
    if a.len() != 0 && b.len() != 0 && c.len() != 0 && a[0] == b[0] && b[0] == c[0] {
        lemma_lex_le_trans(a.skip(1), b.skip(1), c.skip(1));
    }
}

/// Compare two strings in the order of `lex_le`.
pub fn str_lex_le(a: &str, b: &str) -> (r: bool)
    ensures
        r == lex_le(a@, b@),
{
    let an = a.unicode_len();
    let bn = b.unicode_len();
    let mut i: usize = 0;
    proof {
        assert(a@.skip(0) =~= a@);
        assert(b@.skip(0) =~= b@);
    }
    loop
        invariant
            i <= an,
            i <= bn,
            an == a@.len(),
            bn == b@.len(),
            lex_le(a@, b@) == lex_le(a@.skip(i as int), b@.skip(i as int)),
        decreases an - i,
    {
        if i >= an {
            return true;
        }
        if i >= bn {
            return false;
        }
        proof {
            assert(a@.skip(i as int).skip(1) =~= a@.skip(i as int + 1));
            assert(b@.skip(i as int).skip(1) =~= b@.skip(i as int + 1));
        }
        let ca = a.get_char(i);
        let cb = b.get_char(i);
        if ca != cb {
            return (ca as u32) < (cb as u32);
        }
        i = i + 1;
    }
}

/// Is `c` an ASCII letter?
pub open spec fn is_ascii_letter(c: char) -> bool {
    (65 <= c as u32 && c as u32 <= 90) || (97 <= c as u32 && c as u32 <= 122)
}

/// A path is absolute when it starts at a separator or at a drive prefix
/// (an ASCII letter followed by `:`).
pub open spec fn spec_is_absolute(s: Seq<char>) -> bool {
    (s.len() >= 1 && is_sep(s[0])) || (s.len() >= 2 && is_ascii_letter(s[0]) && s[1] == ':')
}

/// Decide whether a path string is absolute.
pub fn is_absolute_path(s: &str) -> (r: bool)
    ensures
        r == spec_is_absolute(s@),
{
    let n = s.unicode_len();
    if n == 0 {
        return false;
    }
    let c0 = s.get_char(0);
    if c0 == '/' || c0 == '\\' {
        return true;
    }
    if n >= 2 {
        let a = c0 as u32;
        let letter = (65 <= a && a <= 90) || (97 <= a && a <= 122);
        if letter && s.get_char(1) == ':' {
            return true;
        }
    }
    false
}

/// Every separator replaced by `/`, other characters unchanged.
pub open spec fn spec_normalize_seps(s: Seq<char>) -> Seq<char> {
    s.map_values(|c: char| if c == '\\' { '/' } else { c })
}

/// Replace backslash separators with forward slashes.
pub fn normalize_seps(s: &str) -> (r: String)
    ensures
        r@ == spec_normalize_seps(s@),
{
    let n = s.unicode_len();
    let mut out = String::new();
    let mut i: usize = 0;
    while i < n
        invariant
            i <= n,
            n == s@.len(),
            out@ =~= spec_normalize_seps(s@.take(i as int)),
        decreases n - i,
    {
        let c = s.get_char(i);
        if c == '\\' {
            out.append("/");
            proof {
                reveal_strlit("/");
            }
        } else {
            let piece = s.substring_char(i, i + 1);
            proof {
                assert(piece@ =~= seq![s@[i as int]]);
            }
            out.append(piece);
        }
        proof {
            assert(s@.take(i as int + 1) =~= s@.take(i as int).push(s@[i as int]));
            assert(out@ =~= spec_normalize_seps(s@.take(i as int + 1)));
        }
        i = i + 1;
    }
    proof {
        assert(s@.take(n as int) =~= s@);
    }
    out
}

/// The index of the first character of `s` that is not a separator, or
/// `s.len()` when all of them are.
pub open spec fn first_non_sep(s: Seq<char>) -> int
    decreases s.len(),
{
    if s.len() == 0 {
        0
    } else if is_sep(s[0]) {
        1 + first_non_sep(s.skip(1))
    } else {
        0
    }
}

proof fn lemma_first_non_sep_bounds(s: Seq<char>)
    ensures
        0 <= first_non_sep(s) <= s.len(),
        forall|k: int| 0 <= k < first_non_sep(s) ==> is_sep(s[k]),
        first_non_sep(s) < s.len() ==> !is_sep(s[first_non_sep(s)]),
    decreases s.len(),
{
    if s.len() != 0 && is_sep(s[0]) {
        lemma_first_non_sep_bounds(s.skip(1));
        assert forall|k: int| 0 <= k < first_non_sep(s) implies is_sep(s[k]) by {
            if k > 0 {
                assert(s.skip(1)[k - 1] == s[k]);
            }
        }
        if first_non_sep(s) < s.len() {
            assert(s.skip(1)[first_non_sep(s) - 1] == s[first_non_sep(s)]);
        }
    }
}

/// What remains of `file` after the textual prefix `root` is removed and the
/// leading separators are trimmed; `file` itself when `root` is no prefix.
pub open spec fn spec_strip_root(root: Seq<char>, file: Seq<char>) -> Seq<char> {
    let stripped = if root.len() <= file.len() && file.take(root.len() as int) == root {
        file.skip(root.len() as int)
    } else {
        file
    };
    stripped.skip(first_non_sep(stripped))
}

/// The relative path of `file` under `root`, with separators normalized to
/// `/`: defined whenever both inputs are absolute and the remainder after
/// stripping is not itself absolute.
pub open spec fn spec_relative_path(root: Seq<char>, file: Seq<char>) -> Seq<char> {
    spec_normalize_seps(spec_strip_root(root, file))
}

/// Compute the path of `file` relative to the directory `root`.
///
/// `root` is removed from the front of `file` as text; remaining leading
/// separators are trimmed and the rest is returned with `/` separators.
/// Fails when either input is not absolute, or when the remainder is still
/// absolute (so `root` was no prefix of `file`).
pub fn get_relative_path(root_path: &str, file_path: &str) -> (r: Result<String, Error>)
    ensures
        match r {
            Ok(rel) => spec_is_absolute(root_path@) && spec_is_absolute(file_path@)
                && rel@ == spec_relative_path(root_path@, file_path@)
                && !spec_is_absolute(spec_strip_root(root_path@, file_path@)),
            Err(e) => e matches Error::FileIO { path, .. } && path@ == file_path@
                && (!spec_is_absolute(root_path@) || !spec_is_absolute(file_path@)
                    || spec_is_absolute(spec_strip_root(root_path@, file_path@))),
        },
{
    if !is_absolute_path(root_path) || !is_absolute_path(file_path) {
        return Err(Error::FileIO {
            path: file_path.to_owned(),
            message: String::from_str("File path is not absolute"),
        });
    }

    let rn = root_path.unicode_len();
    let fn_ = file_path.unicode_len();

    // does `file_path` start with `root_path` as text?
    let mut is_prefix = rn <= fn_;
    let mut i: usize = 0;
    while is_prefix && i < rn
        invariant
            i <= rn,
            rn == root_path@.len(),
            fn_ == file_path@.len(),
            is_prefix ==> rn <= fn_,
            is_prefix ==> forall|k: int|
                0 <= k < i ==> file_path@[k] == root_path@[k],
            !is_prefix ==> !(rn <= fn_ && file_path@.take(rn as int) == root_path@),
        decreases rn - i + (if is_prefix { 1int } else { 0int }),
    {
        if file_path.get_char(i) != root_path.get_char(i) {
            proof {
                assert(file_path@.take(rn as int)[i as int] == file_path@[i as int]);
            }
            is_prefix = false;
        } else {
            i = i + 1;
        }
    }
    proof {
        if is_prefix {
            assert(file_path@.take(rn as int) =~= root_path@);
        }
    }

    let stripped: &str = if is_prefix {
        let st = file_path.substring_char(rn, fn_);
        proof {
            assert(st@ =~= file_path@.skip(rn as int));
        }
        st
    } else {
        file_path
    };

    // trim leading separators
    let sn = stripped.unicode_len();
    let mut j: usize = 0;
    let mut hit_non_sep = false;
    while j < sn && !hit_non_sep
        invariant
            j <= sn,
            sn == stripped@.len(),
            forall|k: int| 0 <= k < j ==> is_sep(stripped@[k]),
            hit_non_sep ==> j < sn && !is_sep(stripped@[j as int]),
        decreases sn - j + (if hit_non_sep { 0int } else { 1int }),
    {
        let c = stripped.get_char(j);
        if c == '/' || c == '\\' {
            j = j + 1;
        } else {
            hit_non_sep = true;
        }
    }
    proof {
        lemma_first_non_sep_bounds(stripped@);
        if first_non_sep(stripped@) < j {
            assert(is_sep(stripped@[first_non_sep(stripped@)]));
        }
        if first_non_sep(stripped@) > j {
            assert(is_sep(stripped@[j as int]));
        }
        assert(first_non_sep(stripped@) == j as int);
    }
    let rel = stripped.substring_char(j, sn);
    proof {
        assert(rel@ =~= stripped@.skip(j as int));
        assert(rel@ == spec_strip_root(root_path@, file_path@));
    }

    if is_absolute_path(rel) {
        return Err(Error::FileIO {
            path: file_path.to_owned(),
            message: String::from_str("File path is absolute after strip"),
        });
    }

    Ok(normalize_seps(rel))
}

} // verus!
