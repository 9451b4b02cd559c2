//! Path canonicalization and segmentation.

use vstd::prelude::*;
use vstd::std_specs::iter::IteratorSpec;
use vstd::string::*;

verus! {

// ------------------------------------------------------------------
// Whitespace
// ------------------------------------------------------------------

/// The characters that surrounding-whitespace trimming removes (the
/// Unicode `White_Space` set).
pub open spec fn is_wspace(c: char) -> bool {
    let u = c as u32;
    ||| u == 0x20
    ||| (0x09 <= u && u <= 0x0D)
    ||| u == 0x85
    ||| u == 0xA0
    ||| u == 0x1680
    ||| (0x2000 <= u && u <= 0x200A)
    ||| u == 0x2028
    ||| u == 0x2029
    ||| u == 0x202F
    ||| u == 0x205F
    ||| u == 0x3000
}

fn is_space_char(c: char) -> (r: bool)
    ensures
        r == is_wspace(c),
{
    let u = c as u32;
    u == 0x20 || (0x09 <= u && u <= 0x0D) || u == 0x85 || u == 0xA0 || u == 0x1680 || (0x2000 <= u
        && u <= 0x200A) || u == 0x2028 || u == 0x2029 || u == 0x202F || u == 0x205F || u == 0x3000
}

// ------------------------------------------------------------------
// Normalization, specified
// ------------------------------------------------------------------

/// `s` without leading whitespace.
pub open spec fn trim_start_spec(s: Seq<char>) -> Seq<char>
    decreases s.len(),
{
    if s.len() > 0 && is_wspace(s[0]) {
        trim_start_spec(s.drop_first())
    } else {
        s
    }
}

/// `s` without trailing whitespace.
pub open spec fn trim_end_spec(s: Seq<char>) -> Seq<char>
    decreases s.len(),
{
    if s.len() > 0 && is_wspace(s.last()) {
        trim_end_spec(s.drop_last())
    } else {
        s
    }
}

/// `s` with every run of consecutive separators shortened to one.
pub open spec fn collapse_spec(s: Seq<char>) -> Seq<char>
    decreases s.len(),
{
    if s.len() == 0 {
        Seq::empty()
    } else if s.len() >= 2 && s[0] == '/' && s[1] == '/' {
        collapse_spec(s.drop_first())
    } else {
        seq![s[0]] + collapse_spec(s.drop_first())
    }
}

/// `s` without a trailing separator, unless `s` is just the root.
pub open spec fn strip_trailing_spec(s: Seq<char>) -> Seq<char> {
    if s.len() > 1 && s.last() == '/' {
        s.drop_last()
    } else {
        s
    }
}

/// `s` with a leading separator; the empty path becomes the root.
pub open spec fn lead_spec(s: Seq<char>) -> Seq<char> {
    if s.len() == 0 {
        seq!['/']
    } else if s[0] != '/' {
        seq!['/'] + s
    } else {
        s
    }
}

/// The canonical form of a request path: trim surrounding whitespace,
/// collapse separator runs, strip the trailing separator (except for the
/// root), and enforce a leading separator.
pub open spec fn normalize_spec(s: Seq<char>) -> Seq<char> {
    lead_spec(strip_trailing_spec(collapse_spec(trim_end_spec(trim_start_spec(s)))))
}

/// No two consecutive separators anywhere in `s`.
pub open spec fn has_no_sep_run(s: Seq<char>) -> bool {
    forall|i: int| 0 <= i < s.len() - 1 ==> !((#[trigger] s[i]) == '/' && s[i + 1] == '/')
}

/// A path already in canonical form: it starts with the separator, has no
/// separator runs, no trailing separator (except the bare root), and no
/// trailing whitespace.
pub open spec fn is_normalized(s: Seq<char>) -> bool {
    &&& s.len() >= 1
    &&& s[0] == '/'
    &&& (s.len() > 1 ==> s.last() != '/')
    &&& !is_wspace(s.last())
    &&& has_no_sep_run(s)
}

proof fn lemma_collapse_no_runs(s: Seq<char>)
    requires
        has_no_sep_run(s),
    ensures
        collapse_spec(s) == s,
    decreases s.len(),
{
    if s.len() == 0 {
        assert(collapse_spec(s) =~= s);
    } else {
        lemma_collapse_no_runs(s.drop_first());
        assert(seq![s[0]] + s.drop_first() =~= s);
    }
}

/// Normalizing a path already in canonical form returns it unchanged.
pub proof fn lemma_normalize_already_normalized(s: Seq<char>)
    requires
        is_normalized(s),
    ensures
        normalize_spec(s) == s,
{
    assert(!is_wspace(s[0]));
    assert(trim_start_spec(s) == s);
    assert(trim_end_spec(s) == s);
    lemma_collapse_no_runs(s);
    assert(strip_trailing_spec(s) == s);
    assert(lead_spec(s) == s);
}

/// A canonical path followed by one extra trailing separator normalizes to
/// the canonical path itself.
pub proof fn lemma_normalize_trailing_variant(s: Seq<char>)
    requires
        is_normalized(s),
    ensures
        normalize_spec(s.push('/')) == s,
{
    let t = s.push('/');
    assert(!is_wspace('/'));
    assert(t.last() == '/');
    assert(trim_start_spec(t) == t);
    assert(trim_end_spec(t) == t);
    if s.len() == 1 {
        // t is the doubled root separator
        assert(t[0] == '/' && t[1] == '/');
        assert(collapse_spec(t) == collapse_spec(t.drop_first()));
        assert(t.drop_first() =~= seq!['/']);
        lemma_collapse_no_runs(seq!['/']);
        assert(collapse_spec(t) =~= seq!['/']);
        assert(strip_trailing_spec(collapse_spec(t)) =~= seq!['/']);
        assert(s =~= seq!['/']);
    } else {
        assert(has_no_sep_run(t)) by {
            assert(s.last() != '/');
            assert(forall|i: int| 0 <= i < s.len() ==> #[trigger] t[i] == s[i]);
        }
        lemma_collapse_no_runs(t);
        assert(strip_trailing_spec(t) =~= s);
        assert(lead_spec(s) == s);
    }
}

// ------------------------------------------------------------------
// Conversion helpers
// ------------------------------------------------------------------

/// Relies on `String::push`: appends the given character to the end of the
/// string.
pub assume_specification[ String::push ](s: &mut String, c: char)
    ensures
        final(s)@ == old(s)@.push(c),
;

/// The characters of `s`, as a vector.
fn str_to_chars(s: &str) -> (v: Vec<char>)
    ensures
        v@ == s@,
{
    broadcast use vstd::string::next_postcondition;
    broadcast use vstd::string::axiom_spec_iter;

    let mut it = s.chars();
    let mut v: Vec<char> = Vec::new();
    proof {
        assert(it.remaining() == s@);
        assert(v@ + it.remaining() =~= s@);
    }
    loop
        invariant
            it.decrease() is Some,
            v@ + it.remaining() == s@,
        ensures
            v@ == s@,
        decreases it.decrease()->Some_0,
    {
        let ghost pre = it.remaining();
        match it.next() {
            Some(c) => {
                v.push(c);
                proof {
                    assert(v@ + it.remaining() =~= v@.drop_last() + pre);
                }
            },
            None => {
                proof {
                    assert(v@ + it.remaining() =~= v@);
                }
                break;
            },
        }
    }
    v
}

/// A string holding exactly the characters of `v`.
fn chars_to_string(v: &Vec<char>) -> (s: String)
    ensures
        s@ == v@,
{
    let mut s = String::new();
    let mut i: usize = 0;
    while i < v.len()
        invariant
            i <= v@.len(),
            s@ == v@.subrange(0, i as int),
        decreases v@.len() - i,
    {
        s.push(v[i]);
        i += 1;
        proof {
            assert(v@.subrange(0, i as int) =~= v@.subrange(0, i - 1).push(v@[i - 1]));
        }
    }
    proof {
        assert(v@.subrange(0, v@.len() as int) =~= v@);
    }
    s
}

// ------------------------------------------------------------------
// normalize_path
// ------------------------------------------------------------------

/// Canonicalizes a request path as `normalize_spec` describes.
pub fn normalize_path(path: &str) -> (res: String)
    ensures
        res@ == normalize_spec(path@),
{
    let chars = str_to_chars(path);
    let n = chars.len();

    // Trim surrounding whitespace: find the trimmed range [lo, hi).
    let mut lo: usize = 0;
    proof {
        assert(chars@.subrange(0, n as int) =~= chars@);
    }
    while lo < n && is_space_char(chars[lo])
        invariant
            0 <= lo <= n,
            n == chars@.len(),
            trim_start_spec(chars@) == trim_start_spec(chars@.subrange(lo as int, n as int)),
        decreases n - lo,
    {
        proof {
            let sub = chars@.subrange(lo as int, n as int);
            assert(sub.drop_first() =~= chars@.subrange(lo as int + 1, n as int));
        }
        lo += 1;
    }
    proof {
        if lo < n {
            assert(trim_start_spec(chars@.subrange(lo as int, n as int)) == chars@.subrange(
                lo as int,
                n as int,
            ));
        } else {
            assert(chars@.subrange(lo as int, n as int) =~= Seq::<char>::empty());
        }
    }
    let ghost started = chars@.subrange(lo as int, n as int);
    proof {
        assert(trim_start_spec(chars@) == started);
    }

    let mut hi: usize = n;
    while hi > lo && is_space_char(chars[hi - 1])
        invariant
            lo <= hi <= n,
            n == chars@.len(),
            trim_end_spec(started) == trim_end_spec(chars@.subrange(lo as int, hi as int)),
            started == chars@.subrange(lo as int, n as int),
        decreases hi,
    {
        proof {
            let sub = chars@.subrange(lo as int, hi as int);
            assert(sub.last() == chars@[hi - 1]);
            assert(sub.drop_last() =~= chars@.subrange(lo as int, hi as int - 1));
        }
        hi -= 1;
    }
    let ghost trimmed = chars@.subrange(lo as int, hi as int);
    proof {
        if hi > lo {
            assert(trim_end_spec(trimmed) == trimmed);
        } else {
            assert(trimmed =~= Seq::<char>::empty());
        }
        assert(trim_end_spec(trim_start_spec(chars@)) == trimmed);
    }

    // Copy out the trimmed range.
    let mut tv: Vec<char> = Vec::new();
    let mut i: usize = lo;
    while i < hi
        invariant
            lo <= i <= hi <= n,
            n == chars@.len(),
            tv@ == chars@.subrange(lo as int, i as int),
        decreases hi - i,
    {
        tv.push(chars[i]);
        i += 1;
        proof {
            assert(chars@.subrange(lo as int, i as int) =~= chars@.subrange(
                lo as int,
                i - 1,
            ).push(chars@[i - 1]));
        }
    }
    proof {
        assert(tv@ =~= trimmed);
    }

    // Collapse separator runs.
    let m = tv.len();
    let mut out: Vec<char> = Vec::new();
    let mut i: usize = 0;
    proof {
        assert(tv@.subrange(0, m as int) =~= tv@);
        assert(Seq::<char>::empty() + collapse_spec(tv@) =~= collapse_spec(tv@));
    }
    while i < m
        invariant
            i <= m,
            m == tv@.len(),
            out@ + collapse_spec(tv@.subrange(i as int, m as int)) == collapse_spec(tv@),
        decreases m - i,
    {
        proof {
            let sub = tv@.subrange(i as int, m as int);
            assert(sub.drop_first() =~= tv@.subrange(i as int + 1, m as int));
        }
        if tv[i] == '/' && i + 1 < m && tv[i + 1] == '/' {
            proof {
                let sub = tv@.subrange(i as int, m as int);
                assert(sub.len() >= 2 && sub[0] == '/' && sub[1] == '/');
            }
        } else {
            let c = tv[i];
            out.push(c);
            proof {
                let sub = tv@.subrange(i as int, m as int);
                assert(collapse_spec(sub) == seq![sub[0]] + collapse_spec(sub.drop_first()));
                assert(out@ + collapse_spec(tv@.subrange(i as int + 1, m as int))
                    =~= out@.drop_last() + collapse_spec(sub));
            }
        }
        i += 1;
    }
    proof {
        assert(tv@.subrange(m as int, m as int) =~= Seq::<char>::empty());
        assert(out@ + collapse_spec(Seq::<char>::empty()) =~= out@);
        assert(out@ == collapse_spec(trimmed));
    }
    let ghost collapsed = collapse_spec(trimmed);

    // Strip a trailing separator unless the whole path is the root.
    if out.len() > 1 && out[out.len() - 1] == '/' {
        out.pop();
    }
    proof {
        assert(out@ =~= strip_trailing_spec(collapsed));
    }
    let ghost stripped = strip_trailing_spec(collapsed);

    // Enforce a leading separator.
    if out.len() == 0 {
        out.push('/');
        proof {
            assert(out@ =~= lead_spec(stripped));
        }
    } else if out[0] != '/' {
        out.insert(0, '/');
        proof {
            assert(out@ =~= lead_spec(stripped));
        }
    }
    proof {
        assert(out@ == normalize_spec(path@));
    }
    chars_to_string(&out)
}

// ------------------------------------------------------------------
// Segmentation
// ------------------------------------------------------------------

/// Index of the first separator in `s`, or `s.len()` if there is none.
pub open spec fn find_slash(s: Seq<char>) -> int
    decreases s.len(),
{
    if s.len() == 0 {
        0
    } else if s[0] == '/' {
        0
    } else {
        1 + find_slash(s.drop_first())
    }
}

proof fn lemma_find_slash(s: Seq<char>)
    ensures
        0 <= find_slash(s) <= s.len(),
        forall|k: int| 0 <= k < find_slash(s) ==> s[k] != '/',
        find_slash(s) < s.len() ==> s[find_slash(s)] == '/',
    decreases s.len(),
{
    if s.len() == 0 || s[0] == '/' {
    } else {
        lemma_find_slash(s.drop_first());
        assert(forall|k: int|
            1 <= k < s.len() ==> #[trigger] s[k] == s.drop_first()[k - 1]);
    }
}

proof fn lemma_find_slash_at(s: Seq<char>, m: int)
    requires
        0 <= m <= s.len(),
        forall|k: int| 0 <= k < m ==> s[k] != '/',
        m < s.len() ==> s[m] == '/',
    ensures
        find_slash(s) == m,
    decreases s.len(),
{
    if s.len() == 0 || s[0] == '/' {
    } else {
        assert(forall|k: int|
            1 <= k < s.len() ==> #[trigger] s[k] == s.drop_first()[k - 1]);
        lemma_find_slash_at(s.drop_first(), m - 1);
    }
}

/// The non-empty pieces of `s` between separators, in order.
pub open spec fn segments_spec(s: Seq<char>) -> Seq<Seq<char>>
    decreases s.len(),
    via segments_spec_dec
{
    if s.len() == 0 {
        Seq::empty()
    } else if s[0] == '/' {
        segments_spec(s.drop_first())
    } else {
        seq![s.subrange(0, find_slash(s))] + segments_spec(
            s.subrange(find_slash(s), s.len() as int),
        )
    }
}

#[via_fn]
proof fn segments_spec_dec(s: Seq<char>) {
    if s.len() > 0 && s[0] != '/' {
        lemma_find_slash(s);
        assert(find_slash(s) >= 1);
    }
}

/// The views of a sequence of strings.
pub open spec fn strs_view(v: Seq<String>) -> Seq<Seq<char>> {
    v.map_values(|s: String| s@)
}

/// Splits a path on the separator, discarding empty pieces.
pub fn split_segments(path: &str) -> (r: Vec<String>)
    ensures
        strs_view(r@) == segments_spec(path@),
{
    let chars = str_to_chars(path);
    let n = chars.len();
    let mut out: Vec<String> = Vec::new();
    let mut i: usize = 0;
    proof {
        assert(chars@.subrange(0, n as int) =~= chars@);
        assert(strs_view(out@) + segments_spec(chars@) =~= segments_spec(chars@));
    }
    while i < n
        invariant
            i <= n,
            n == chars@.len(),
            strs_view(out@) + segments_spec(chars@.subrange(i as int, n as int)) == segments_spec(
                chars@,
            ),
        decreases n - i,
    {
        let ghost sub = chars@.subrange(i as int, n as int);
        proof {
            assert(sub.drop_first() =~= chars@.subrange(i as int + 1, n as int));
        }
        if chars[i] == '/' {
            i += 1;
        } else {
            let start = i;
            let mut j = i;
            let mut seg: Vec<char> = Vec::new();
            while j < n && chars[j] != '/'
                invariant
                    start <= j <= n,
                    n == chars@.len(),
                    forall|k: int| start <= k < j ==> chars@[k] != '/',
                    seg@ == chars@.subrange(start as int, j as int),
                decreases n - j,
            {
                seg.push(chars[j]);
                j += 1;
                proof {
                    assert(chars@.subrange(start as int, j as int) =~= chars@.subrange(
                        start as int,
                        j - 1,
                    ).push(chars@[j - 1]));
                }
            }
            let s = chars_to_string(&seg);
            out.push(s);
            proof {
                assert(forall|k: int|
                    0 <= k < sub.len() ==> #[trigger] sub[k] == chars@[i + k]);
                lemma_find_slash_at(sub, j - i);
                assert(segments_spec(sub) == seq![sub.subrange(0, j - i)] + segments_spec(
                    sub.subrange(j - i, sub.len() as int),
                ));
                assert(sub.subrange(0, j - i) =~= chars@.subrange(start as int, j as int));
                assert(sub.subrange(j - i, sub.len() as int) =~= chars@.subrange(
                    j as int,
                    n as int,
                ));
                assert(strs_view(out@) =~= strs_view(out@.drop_last()).push(s@));
                assert(strs_view(out@) + segments_spec(chars@.subrange(j as int, n as int))
                    =~= strs_view(out@.drop_last()) + segments_spec(sub));
            }
            i = j;
        }
    }
    proof {
        assert(chars@.subrange(n as int, n as int) =~= Seq::<char>::empty());
        assert(strs_view(out@) + segments_spec(Seq::<char>::empty()) =~= strs_view(out@));
        assert(strs_view(out@) == segments_spec(path@));
    }
    out
}

/// The components of a path in literal-prefix style: the root separator
/// itself first, then the non-empty pieces between separators.
pub open spec fn base_components_spec(s: Seq<char>) -> Seq<Seq<char>> {
    seq![seq!['/']] + segments_spec(s)
}

/// Splits a path on the separator; the root separator itself is the first
/// emitted component, by convention.
pub fn get_base_components(path: &str) -> (r: Vec<String>)
    ensures
        strs_view(r@) == base_components_spec(path@),
{
    let mut out: Vec<String> = Vec::new();
    let root = String::from_str("/");
    proof {
        reveal_strlit("/");
        assert(root@ =~= seq!['/']);
    }
    out.push(root);
    let mut rest = split_segments(path);
    let ghost segs = strs_view(rest@);
    out.append(&mut rest);
    proof {
        assert(strs_view(out@) =~= seq![seq!['/']] + segs);
    }
    out
}

// ------------------------------------------------------------------
// Prefix stripping
// ------------------------------------------------------------------

/// `s` without its leading occurrence of `pre`, when `s` starts with `pre`;
/// `s` unchanged otherwise.
pub open spec fn strip_prefix_spec(s: Seq<char>, pre: Seq<char>) -> Seq<char> {
    if pre.len() <= s.len() && s.subrange(0, pre.len() as int) == pre {
        s.subrange(pre.len() as int, s.len() as int)
    } else {
        s
    }
}

/// Removes the prefix `pre` from `s` once, if `s` starts with it.
pub fn strip_prefix_once(s: &String, pre: &String) -> (r: String)
    ensures
        r@ == strip_prefix_spec(s@, pre@),
{
    let sc = str_to_chars(s.as_str());
    let pc = str_to_chars(pre.as_str());
    if pc.len() > sc.len() {
        return s.clone();
    }
    let mut i: usize = 0;
    while i < pc.len()
        invariant
            i <= pc@.len() <= sc@.len(),
            sc@ == s@,
            pc@ == pre@,
            forall|k: int| 0 <= k < i ==> s@[k] == pre@[k],
        decreases pc@.len() - i,
    {
        if sc[i] != pc[i] {
            proof {
                assert(s@.subrange(0, pre@.len() as int)[i as int] != pre@[i as int]);
            }
            return s.clone();
        }
        i += 1;
    }
    proof {
        assert(s@.subrange(0, pre@.len() as int) =~= pre@);
    }
    let mut out: Vec<char> = Vec::new();
    let mut j: usize = pc.len();
    while j < sc.len()
        invariant
            pc@.len() <= j <= sc@.len(),
            sc@ == s@,
            pc@ == pre@,
            out@ == s@.subrange(pre@.len() as int, j as int),
        decreases sc@.len() - j,
    {
        out.push(sc[j]);
        j += 1;
        proof {
            assert(s@.subrange(pre@.len() as int, j as int) =~= s@.subrange(
                pre@.len() as int,
                j - 1,
            ).push(s@[j - 1]));
        }
    }
    proof {
        assert(out@ =~= strip_prefix_spec(s@, pre@));
    }
    chars_to_string(&out)
}

} // verus!
