use vstd::prelude::*;

use crate::error::Error;

verus! {

/// Whitespace as the scanner treats it.
pub open spec fn spec_ws(c: char) -> bool {
    c == ' ' || c == '\t' || c == '\n' || c == '\r'
}

/// The token that introduces a declaration.
pub open spec fn extern_pat() -> Seq<char> {
    seq!['e', 'x', 't', 'e', 'r', 'n']
}

/// The C-linkage marker that must follow it.
pub open spec fn cquote_pat() -> Seq<char> {
    seq!['"', 'C', '"']
}

/// The marker of an entry-point kernel.
pub open spec fn global_pat() -> Seq<char> {
    seq!['_', '_', 'g', 'l', 'o', 'b', 'a', 'l', '_', '_']
}

/// The marker of a device-side helper.
pub open spec fn device_pat() -> Seq<char> {
    seq!['_', '_', 'd', 'e', 'v', 'i', 'c', 'e', '_', '_']
}

/// The void return that an entry point must declare.
pub open spec fn void_pat() -> Seq<char> {
    seq!['v', 'o', 'i', 'd']
}

/// `pat` occurs in `s` at position `i`.
pub open spec fn match_at(s: Seq<char>, pat: Seq<char>, i: int) -> bool {
    0 <= i && i + pat.len() <= s.len() && s.subrange(i, i + pat.len()) == pat
}

/// `pat` occurs somewhere in `s`.
pub open spec fn contains_pat(s: Seq<char>, pat: Seq<char>) -> bool {
    exists|i: int| match_at(s, pat, i)
}

/// Position of the first occurrence of `pat` at or after `from`.
pub open spec fn find_from(s: Seq<char>, pat: Seq<char>, from: int) -> Option<int>
    decreases s.len() - from,
{
    if from < 0 || from + pat.len() > s.len() {
        Option::None
    } else if match_at(s, pat, from) {
        Option::Some(from)
    } else if from >= s.len() {
        Option::None
    } else {
        find_from(s, pat, from + 1)
    }
}

/// A found occurrence lies between `from` and the end.
pub proof fn lemma_find_from_bounds(s: Seq<char>, pat: Seq<char>, from: int)
    ensures
        match find_from(s, pat, from) {
            Option::Some(j) => from <= j && 0 <= j && j + pat.len() <= s.len() && match_at(
                s,
                pat,
                j,
            ),
            Option::None => true,
        },
    decreases s.len() - from,
{
    if !(from < 0 || from + pat.len() > s.len()) && !match_at(s, pat, from) && from < s.len() {
        lemma_find_from_bounds(s, pat, from + 1);
    }
}

/// A scan that found a first match computes `find_from`.
pub proof fn lemma_find_from_at(s: Seq<char>, pat: Seq<char>, from: int, i: int)
    requires
        0 <= from <= i,
        forall|k: int| from <= k < i ==> !match_at(s, pat, k),
        match_at(s, pat, i),
    ensures
        find_from(s, pat, from) == Option::Some(i),
    decreases i - from,
{
    if from < i {
        lemma_find_from_at(s, pat, from + 1, i);
    }
}

/// A scan that found no match anywhere computes `find_from`.
pub proof fn lemma_find_from_none(s: Seq<char>, pat: Seq<char>, from: int)
    requires
        forall|k: int| from <= k ==> !match_at(s, pat, k),
    ensures
        find_from(s, pat, from) is None,
    decreases s.len() - from,
{
    if !(from < 0 || from + pat.len() > s.len()) && from < s.len() {
        lemma_find_from_none(s, pat, from + 1);
    }
}

/// Index of the first non-whitespace character at or after `i`, or the
/// length when there is none.
pub open spec fn first_non_ws(s: Seq<char>, i: int) -> int
    decreases s.len() - i,
{
    if i < 0 || i >= s.len() {
        s.len() as int
    } else if spec_ws(s[i]) {
        first_non_ws(s, i + 1)
    } else {
        i
    }
}

/// One past the last non-whitespace character strictly before `i`, or zero.
pub open spec fn end_non_ws(s: Seq<char>, i: int) -> int
    decreases i,
{
    if i <= 0 {
        0
    } else if spec_ws(s[i - 1]) {
        end_non_ws(s, i - 1)
    } else {
        i
    }
}

/// The sequence with leading and trailing whitespace removed.
pub open spec fn trim_of(s: Seq<char>) -> Seq<char> {
    let lo = first_non_ws(s, 0);
    if lo == s.len() {
        Seq::empty()
    } else {
        s.subrange(lo, end_non_ws(s, s.len() as int))
    }
}

/// Start of the last whitespace-separated token ending at `i`: the position
/// after the last whitespace strictly before `i`.
pub open spec fn token_start(s: Seq<char>, i: int) -> int
    decreases i,
{
    if i <= 0 {
        0
    } else if spec_ws(s[i - 1]) {
        i
    } else {
        token_start(s, i - 1)
    }
}

/// The last whitespace-separated token of `s`; the whole of `s` when it
/// holds no whitespace.
pub open spec fn last_token(s: Seq<char>) -> Seq<char> {
    s.subrange(token_start(s, s.len() as int), s.len() as int)
}

/// A scan over leading whitespace computes `first_non_ws`.
pub proof fn lemma_first_non_ws_at(s: Seq<char>, i: int, t: int)
    requires
        0 <= i <= t <= s.len(),
        forall|k: int| i <= k < t ==> spec_ws(#[trigger] s[k]),
        t == s.len() || !spec_ws(s[t]),
    ensures
        first_non_ws(s, i) == t,
    decreases t - i,
{
    if i < t {
        lemma_first_non_ws_at(s, i + 1, t);
    }
}

/// A scan over trailing whitespace computes `end_non_ws`.
pub proof fn lemma_end_non_ws_at(s: Seq<char>, i: int, t: int)
    requires
        0 <= t <= i <= s.len(),
        forall|k: int| t <= k < i ==> spec_ws(#[trigger] s[k]),
        t == 0 || !spec_ws(s[t - 1]),
    ensures
        end_non_ws(s, i) == t,
    decreases i - t,
{
    if t < i {
        lemma_end_non_ws_at(s, i - 1, t);
    }
}

/// A scan over trailing non-whitespace computes `token_start`.
pub proof fn lemma_token_start_at(s: Seq<char>, i: int, t: int)
    requires
        0 <= t <= i <= s.len(),
        forall|k: int| t <= k < i ==> !spec_ws(#[trigger] s[k]),
        t == 0 || spec_ws(s[t - 1]),
    ensures
        token_start(s, i) == t,
    decreases i - t,
{
    if t < i {
        lemma_token_start_at(s, i - 1, t);
    }
}

/// A discovered symbol: the name of an externally visible declaration with
/// its classification.
#[derive(Clone, Copy, PartialEq, Eq, Debug)]
pub enum Symbol<'a> {
    /// An entry-point kernel: marked global with a void return.
    Global(&'a str),
    /// A device-side function.
    Device(&'a str),
}

/// Mathematical image of a symbol.
#[verifier::ext_equal]
pub ghost enum SymImg {
    Global(Seq<char>),
    Device(Seq<char>),
}

impl<'a> View for Symbol<'a> {
    type V = SymImg;

    open spec fn view(&self) -> SymImg {
        match self {
            Symbol::Global(s) => SymImg::Global(s@),
            Symbol::Device(s) => SymImg::Device(s@),
        }
    }
}

/// Images of a symbol list.
pub open spec fn syms_view(v: Seq<Symbol>) -> Seq<SymImg> {
    Seq::new(v.len(), |i: int| v[i]@)
}

/// The symbols of one segment: the text between an `extern` and the next.
/// The trimmed segment must open with the C-linkage marker and hold an
/// argument list; the head before the `(` is classified by its markers and
/// named by its last whitespace-separated token.
pub open spec fn sym_of_segment(seg: Seq<char>) -> Seq<SymImg> {
    let t = trim_of(seg);
    if t.len() < 3 || t.subrange(0, 3) != cquote_pat() {
        Seq::empty()
    } else {
        let f = t.subrange(3, t.len() as int);
        match find_from(f, seq!['('], 0) {
            Option::None => Seq::empty(),
            Option::Some(p) => {
                let head = trim_of(f.subrange(0, p));
                if contains_pat(head, global_pat()) && contains_pat(head, void_pat()) {
                    seq![SymImg::Global(last_token(head))]
                } else if contains_pat(head, device_pat()) {
                    seq![SymImg::Device(last_token(head))]
                } else {
                    Seq::empty()
                }
            },
        }
    }
}

/// The symbols of every segment from position `from` on: one segment per
/// further `extern` occurrence, in source order.
pub open spec fn search_after(s: Seq<char>, from: int) -> Seq<SymImg>
    decreases s.len() - from,
    via search_after_dec
{
    match find_from(s, extern_pat(), from) {
        Option::None => sym_of_segment(s.subrange(from, s.len() as int)),
        Option::Some(j) => sym_of_segment(s.subrange(from, j)) + search_after(s, j + 6),
    }
}

#[via_fn]
proof fn search_after_dec(s: Seq<char>, from: int) {
    lemma_find_from_bounds(s, extern_pat(), from);
}

/// The symbols of a source string: everything before the first `extern` is
/// skipped, and each `extern` opens one segment.
pub open spec fn spec_search(s: Seq<char>) -> Seq<SymImg> {
    match find_from(s, extern_pat(), 0) {
        Option::None => Seq::empty(),
        Option::Some(i) => search_after(s, i + 6),
    }
}

/// Whitespace test matching `spec_ws`.
fn is_ws(c: char) -> (r: bool)
    ensures
        r == spec_ws(c),
{
    c == ' ' || c == '\t' || c == '\n' || c == '\r'
}

/// First occurrence of `pat` in `code` at or after `from`.
fn find_in(code: &str, pat: &str, from: usize) -> (r: Option<usize>)
    ensures
        match r {
            Option::Some(i) => find_from(code@, pat@, from as int) == Option::Some(i as int),
            Option::None => find_from(code@, pat@, from as int) is None,
        },
{
    let n = code.unicode_len();
    let m = pat.unicode_len();
    if from > n || m > n - from {
        return Option::None;
    }
    if m == 0 {
        proof {
            assert(code@.subrange(from as int, from as int) =~= pat@);
            assert(match_at(code@, pat@, from as int));
        }
        return Option::Some(from);
    }
    let mut i = from;
    while i <= n - m
        invariant
            from <= i,
            1 <= m <= n,
            i <= n - m + 1,
            n == code@.len(),
            m == pat@.len(),
            forall|k: int| from <= k < i ==> !match_at(code@, pat@, k),
        decreases n - i,
    {
        let mut j: usize = 0;
        let mut ok = true;
        while j < m && ok
            invariant
                j <= m,
                from <= i <= n - m,
                n == code@.len(),
                m == pat@.len(),
                ok ==> forall|t: int| 0 <= t < j ==> code@[i + t] == pat@[t],
                !ok ==> !match_at(code@, pat@, i as int),
            decreases m - j + (if ok {
                1int
            } else {
                0int
            }),
        {
            if code.get_char(i + j) != pat.get_char(j) {
                ok = false;
                proof {
                    if match_at(code@, pat@, i as int) {
                        assert(code@.subrange(i as int, i + m)[j as int] == code@[i + j]);
                    }
                }
            } else {
                j = j + 1;
            }
        }
        if ok {
            proof {
                assert(code@.subrange(i as int, i + m) =~= pat@);
                lemma_find_from_at(code@, pat@, from as int, i as int);
            }
            return Option::Some(i);
        }
        i = i + 1;
    }
    proof {
        assert forall|k: int| from <= k implies !match_at(code@, pat@, k) by {
            if match_at(code@, pat@, k) {
                assert(k + m <= n);
            }
        }
        lemma_find_from_none(code@, pat@, from as int);
    }
    Option::None
}

/// `pat` occurs within `code[lo..hi)`.
fn contains_in(code: &str, pat: &str, lo: usize, hi: usize) -> (r: bool)
    requires
        lo <= hi <= code@.len(),
    ensures
        r == contains_pat(code@.subrange(lo as int, hi as int), pat@),
{
    let ghost sub = code@.subrange(lo as int, hi as int);
    let m = pat.unicode_len();
    let seg_len = hi - lo;
    if m > seg_len {
        proof {
            assert(!contains_pat(sub, pat@)) by {
                if contains_pat(sub, pat@) {
                    let i = choose|i: int| match_at(sub, pat@, i);
                }
            }
        }
        return false;
    }
    if m == 0 {
        proof {
            assert(sub.subrange(0, 0) =~= pat@);
            assert(match_at(sub, pat@, 0));
        }
        return true;
    }
    let mut k: usize = 0;
    while k <= seg_len - m
        invariant
            lo <= hi <= code@.len(),
            m == pat@.len(),
            1 <= m <= seg_len,
            seg_len == hi - lo,
            k <= seg_len - m + 1,
            sub == code@.subrange(lo as int, hi as int),
            forall|q: int| 0 <= q < k ==> !match_at(sub, pat@, q),
        decreases seg_len - k,
    {
        let mut j: usize = 0;
        let mut ok = true;
        while j < m && ok
            invariant
                j <= m,
                k <= seg_len - m,
                lo <= hi <= code@.len(),
                m == pat@.len(),
                seg_len == hi - lo,
                sub == code@.subrange(lo as int, hi as int),
                ok ==> forall|t: int| 0 <= t < j ==> sub[k + t] == pat@[t],
                !ok ==> !match_at(sub, pat@, k as int),
            decreases m - j + (if ok {
                1int
            } else {
                0int
            }),
        {
            proof {
                assert(sub[k + j] == code@[lo + k + j]);
            }
            if code.get_char(lo + k + j) != pat.get_char(j) {
                ok = false;
                proof {
                    if match_at(sub, pat@, k as int) {
                        assert(sub.subrange(k as int, k + m)[j as int] == sub[k + j]);
                    }
                }
            } else {
                j = j + 1;
            }
        }
        if ok {
            proof {
                assert(sub.subrange(k as int, k + m) =~= pat@);
                assert(match_at(sub, pat@, k as int));
            }
            return true;
        }
        k = k + 1;
    }
    proof {
        assert(!contains_pat(sub, pat@)) by {
            if contains_pat(sub, pat@) {
                let i = choose|i: int| match_at(sub, pat@, i);
                assert(0 <= i && i + m <= seg_len);
            }
        }
    }
    false
}

/// Indices of `code[lo..hi)` with surrounding whitespace removed: the
/// trimmed text is `code[a..b)`.
fn trim_range(code: &str, lo: usize, hi: usize) -> (r: (usize, usize))
    requires
        lo <= hi <= code@.len(),
    ensures
        lo <= r.0 <= r.1 <= hi,
        trim_of(code@.subrange(lo as int, hi as int)) == code@.subrange(
            r.0 as int,
            r.1 as int,
        ),
        r.0 < r.1 ==> !spec_ws(code@[r.0 as int]) && !spec_ws(code@[r.1 - 1]),
{
    let ghost seg = code@.subrange(lo as int, hi as int);
    let mut a = lo;
    while a < hi && is_ws(code.get_char(a))
        invariant
            lo <= a <= hi <= code@.len(),
            seg == code@.subrange(lo as int, hi as int),
            forall|k: int| lo <= k < a ==> spec_ws(#[trigger] code@[k]),
        decreases hi - a,
    {
        a = a + 1;
    }
    proof {
        assert forall|k: int| 0 <= k < a - lo implies spec_ws(#[trigger] seg[k]) by {
            assert(seg[k] == code@[lo + k]);
        }
        if a < hi {
            assert(seg[a - lo] == code@[a as int]);
        }
        lemma_first_non_ws_at(seg, 0, a - lo);
    }
    if a == hi {
        proof {
            assert(trim_of(seg) =~= code@.subrange(hi as int, hi as int));
        }
        return (hi, hi);
    }
    let mut b = hi;
    while b > a && is_ws(code.get_char(b - 1))
        invariant
            lo <= a < b <= hi <= code@.len(),
            seg == code@.subrange(lo as int, hi as int),
            !spec_ws(code@[a as int]),
            forall|k: int| b <= k < hi ==> spec_ws(#[trigger] code@[k]),
        decreases b,
    {
        b = b - 1;
    }
    proof {
        assert forall|k: int| b - lo <= k < seg.len() implies spec_ws(#[trigger] seg[k]) by {
            assert(seg[k] == code@[lo + k]);
        }
        assert(seg[b - lo - 1] == code@[b - 1]);
        lemma_end_non_ws_at(seg, seg.len() as int, b - lo);
        assert(trim_of(seg) =~= code@.subrange(a as int, b as int));
    }
    (a, b)
}

/// The symbol of the segment `code[lo..hi)`, if it declares one.
#[verifier::rlimit(60)]
fn segment_symbol<'a>(code: &'a str, lo: usize, hi: usize) -> (r: Option<Symbol<'a>>)
    requires
        lo <= hi <= code@.len(),
    ensures
        ({
            let syms = sym_of_segment(code@.subrange(lo as int, hi as int));
            match r {
                Option::Some(sym) => syms == seq![sym@],
                Option::None => syms.len() == 0,
            }
        }),
{
    let ghost seg = code@.subrange(lo as int, hi as int);
    let (tlo, thi) = trim_range(code, lo, hi);
    let ghost t = trim_of(seg);
    if thi - tlo < 3 || code.get_char(tlo) != '"' || code.get_char(tlo + 1) != 'C'
        || code.get_char(tlo + 2) != '"' {
        proof {
            if t.len() >= 3 && t.subrange(0, 3) == cquote_pat() {
                assert(t.subrange(0, 3)[0] == t[0] && t[0] == code@[tlo as int]);
                assert(t.subrange(0, 3)[1] == t[1] && t[1] == code@[tlo + 1]);
                assert(t.subrange(0, 3)[2] == t[2] && t[2] == code@[tlo + 2]);
            }
        }
        return Option::None;
    }
    proof {
        assert(t.subrange(0, 3) =~= cquote_pat()) by {
            assert(t.subrange(0, 3)[0] == t[0] && t[0] == code@[tlo as int]);
            assert(t.subrange(0, 3)[1] == t[1] && t[1] == code@[tlo + 1]);
            assert(t.subrange(0, 3)[2] == t[2] && t[2] == code@[tlo + 2]);
        }
    }
    let flo = tlo + 3;
    let ghost f = t.subrange(3, t.len() as int);
    proof {
        assert(f =~= code@.subrange(flo as int, thi as int));
    }
    let mut p = flo;
    while p < thi && code.get_char(p) != '('
        invariant
            flo <= p <= thi <= code@.len(),
            forall|k: int| flo <= k < p ==> code@[k] != '(',
        decreases thi - p,
    {
        p = p + 1;
    }
    if p == thi {
        proof {
            assert forall|k: int| 0 <= k implies !match_at(f, seq!['('], k) by {
                if match_at(f, seq!['('], k) {
                    assert(f.subrange(k, k + 1)[0] == f[k]);
                    assert(f[k] == code@[flo + k]);
                }
            }
            lemma_find_from_none(f, seq!['('], 0);
        }
        return Option::None;
    }
    proof {
        assert(f[p - flo] == code@[p as int]);
        assert(match_at(f, seq!['('], p - flo)) by {
            assert(f.subrange(p - flo, p - flo + 1) =~= seq!['(']);
        }
        assert forall|k: int| 0 <= k < p - flo implies !match_at(f, seq!['('], k) by {
            if match_at(f, seq!['('], k) {
                assert(f.subrange(k, k + 1)[0] == f[k]);
                assert(f[k] == code@[flo + k]);
            }
        }
        lemma_find_from_at(f, seq!['('], 0, p - flo);
    }
    let ghost head_raw = f.subrange(0, p - flo);
    proof {
        assert(head_raw =~= code@.subrange(flo as int, p as int));
    }
    let (hlo, hhi) = trim_range(code, flo, p);
    let ghost head = trim_of(head_raw);
    proof {
        assert(head == code@.subrange(hlo as int, hhi as int));
    }
    let has_global = contains_in(code, "__global__", hlo, hhi);
    let has_void = contains_in(code, "void", hlo, hhi);
    let has_device = contains_in(code, "__device__", hlo, hhi);
    proof {
        reveal_strlit("__global__");
        reveal_strlit("__device__");
        reveal_strlit("void");
        assert("__global__"@ =~= global_pat());
        assert("__device__"@ =~= device_pat());
        assert("void"@ =~= void_pat());
    }
    if !(has_global && has_void) && !has_device {
        return Option::None;
    }
    let mut ts = hhi;
    while ts > hlo && !is_ws(code.get_char(ts - 1))
        invariant
            hlo <= ts <= hhi <= code@.len(),
            forall|k: int| ts <= k < hhi ==> !spec_ws(#[trigger] code@[k]),
        decreases ts,
    {
        ts = ts - 1;
    }
    proof {
        assert forall|k: int| ts - hlo <= k < head.len() implies !spec_ws(#[trigger] head[k]) by {
            assert(head[k] == code@[hlo + k]);
        }
        if ts > hlo {
            assert(head[ts - hlo - 1] == code@[ts - 1]);
        }
        lemma_token_start_at(head, head.len() as int, ts - hlo);
    }
    let name: &'a str = code.substring_char(ts, hhi);
    proof {
        assert(name@ =~= last_token(head));
    }
    if has_global && has_void {
        let sym = Symbol::Global(name);
        proof {
            assert(sym_of_segment(seg) =~~= seq![sym@]);
        }
        Option::Some(sym)
    } else {
        let sym = Symbol::Device(name);
        proof {
            assert(sym_of_segment(seg) =~~= seq![sym@]);
        }
        Option::Some(sym)
    }
}

impl<'a> Symbol<'a> {
    /// The bare symbol name, for handing to a loader or a linker.
    pub fn name(&self) -> (r: &'a str)
        ensures
            self@ == SymImg::Global(r@) || self@ == SymImg::Device(r@),
    {
        match self {
            Symbol::Global(s) => s,
            Symbol::Device(s) => s,
        }
    }

    /// Discover the externally visible symbols of a source string, in source
    /// order: one per `extern "C"` declaration, classified as entry-point
    /// kernel or device function and named by the last token of the text
    /// before the argument list.
    pub fn search(code: &'a str) -> (r: Vec<Symbol<'a>>)
        ensures
            syms_view(r@) == spec_search(code@),
    {
        let n = code.unicode_len();
        let mut out: Vec<Symbol<'a>> = Vec::new();
        proof {
            reveal_strlit("extern");
            assert("extern"@ =~= extern_pat());
        }
        let first = match find_in(code, "extern", 0) {
            Option::None => {
                proof {
                    assert(syms_view(out@) =~= spec_search(code@));
                }
                return out;
            },
            Option::Some(i) => i,
        };
        proof {
            lemma_find_from_bounds(code@, extern_pat(), 0);
        }
        let mut cur = first + 6;
        let mut running = true;
        while running
            invariant
                cur <= n,
                n == code@.len(),
                running ==> syms_view(out@) + search_after(code@, cur as int) == spec_search(
                    code@,
                ),
                !running ==> syms_view(out@) == spec_search(code@),
            decreases n - cur + (if running {
                1int
            } else {
                0int
            }),
    {
            proof {
                reveal_strlit("extern");
                assert("extern"@ =~= extern_pat());
            }
            match find_in(code, "extern", cur) {
                Option::Some(j) => {
                    proof {
                        lemma_find_from_bounds(code@, extern_pat(), cur as int);
                    }
                    let ghost pre = syms_view(out@);
                    match segment_symbol(code, cur, j) {
                        Option::Some(sym) => {
                            out.push(sym);
                            proof {
                                assert(syms_view(out@) =~= pre + sym_of_segment(
                                    code@.subrange(cur as int, j as int),
                                ));
                            }
                        },
                        Option::None => {
                            proof {
                                assert(syms_view(out@) =~= pre + sym_of_segment(
                                    code@.subrange(cur as int, j as int),
                                ));
                            }
                        },
                    }
                    cur = j + 6;
                },
                Option::None => {
                    let ghost pre = syms_view(out@);
                    match segment_symbol(code, cur, n) {
                        Option::Some(sym) => {
                            out.push(sym);
                            proof {
                                assert(syms_view(out@) =~= pre + sym_of_segment(
                                    code@.subrange(cur as int, n as int),
                                ));
                            }
                        },
                        Option::None => {
                            proof {
                                assert(syms_view(out@) =~= pre + sym_of_segment(
                                    code@.subrange(cur as int, n as int),
                                ));
                            }
                        },
                    }
                    running = false;
                },
            }
        }
        out
    }
}

/// End of the segment opened by occurrence `i`: the next occurrence, or the
/// end of the source.
pub open spec fn segment_end(s: Seq<char>, occs: Seq<int>, i: int) -> int {
    if i + 1 < occs.len() {
        occs[i + 1]
    } else {
        s.len() as int
    }
}

/// The symbols of the segments opened by occurrences `i` onwards, in order.
pub open spec fn syms_from(s: Seq<char>, occs: Seq<int>, i: int) -> Seq<SymImg>
    decreases occs.len() - i,
{
    if i < 0 || i >= occs.len() {
        Seq::empty()
    } else {
        sym_of_segment(s.subrange(occs[i] + 6, segment_end(s, occs, i))) + syms_from(s, occs, i + 1)
    }
}

/// The occurrence list is exactly the places where `extern` stands, in
/// order, non-overlapping.
pub open spec fn occurrences_of_extern(s: Seq<char>, occs: Seq<int>) -> bool {
    &&& forall|i: int| 0 <= i < occs.len() ==> match_at(s, extern_pat(), #[trigger] occs[i])
    &&& forall|i: int, j: int| 0 <= i < j < occs.len() ==> #[trigger] occs[i] + 6 <= #[trigger] occs[j]
    &&& forall|k: int|
        match_at(s, extern_pat(), k) ==> exists|i: int| 0 <= i < occs.len() && #[trigger] occs[i] == k
}

proof fn lemma_search_after_closure(s: Seq<char>, occs: Seq<int>, i: int)
    requires
        occurrences_of_extern(s, occs),
        0 <= i < occs.len(),
    ensures
        search_after(s, occs[i] + 6) == syms_from(s, occs, i),
    decreases occs.len() - i,
{
    let from = occs[i] + 6;
    if i + 1 < occs.len() {
        assert forall|k: int| from <= k < occs[i + 1] implies !match_at(s, extern_pat(), k) by {
            if match_at(s, extern_pat(), k) {
                let w = choose|w: int| 0 <= w < occs.len() && occs[w] == k;
                if w <= i {
                    assert(occs[w] <= occs[i]);
                } else {
                    assert(occs[i + 1] <= occs[w]);
                }
            }
        }
        lemma_find_from_at(s, extern_pat(), from, occs[i + 1]);
        lemma_search_after_closure(s, occs, i + 1);
    } else {
        assert forall|k: int| from <= k implies !match_at(s, extern_pat(), k) by {
            if match_at(s, extern_pat(), k) {
                let w = choose|w: int| 0 <= w < occs.len() && occs[w] == k;
                assert(occs[w] <= occs[i]);
            }
        }
        lemma_find_from_none(s, extern_pat(), from);
        assert(syms_from(s, occs, i + 1) =~= Seq::<SymImg>::empty());
    }
}

/// Law: the search yields exactly the symbols of the segment opened by each
/// `extern` occurrence, in source order — one well-formed linkage-C
/// declaration per occurrence yields exactly one correctly classified and
/// named entry, and text outside every segment (in particular a declaration
/// without `extern`) yields nothing.
pub proof fn lemma_search_closure(s: Seq<char>, occs: Seq<int>)
    requires
        occurrences_of_extern(s, occs),
    ensures
        spec_search(s) == syms_from(s, occs, 0),
{
    if occs.len() == 0 {
        assert forall|k: int| 0 <= k implies !match_at(s, extern_pat(), k) by {
            if match_at(s, extern_pat(), k) {
                let w = choose|w: int| 0 <= w < occs.len() && occs[w] == k;
            }
        }
        lemma_find_from_none(s, extern_pat(), 0);
        assert(syms_from(s, occs, 0) =~= Seq::<SymImg>::empty());
    } else {
        assert forall|k: int| 0 <= k < occs[0] implies !match_at(s, extern_pat(), k) by {
            if match_at(s, extern_pat(), k) {
                let w = choose|w: int| 0 <= w < occs.len() && occs[w] == k;
                if w > 0 {
                    assert(occs[0] + 6 <= occs[w]);
                }
            }
        }
        lemma_find_from_bounds(s, extern_pat(), 0);
        lemma_find_from_at(s, extern_pat(), 0, occs[0]);
        lemma_search_after_closure(s, occs, 0);
    }
}

/// A segment whose trimmed text does not open with the C-linkage marker
/// declares nothing.
pub proof fn lemma_non_linkage_segment(seg: Seq<char>)
    requires
        trim_of(seg).len() < 3 || trim_of(seg).subrange(0, 3) != cquote_pat(),
    ensures
        sym_of_segment(seg) =~= Seq::<SymImg>::empty(),
{
}

/// Character-for-character string equality.
fn str_eq(a: &str, b: &str) -> (r: bool)
    ensures
        r == (a@ == b@),
{
    let n = a.unicode_len();
    if n != b.unicode_len() {
        return false;
    }
    let mut i: usize = 0;
    while i < n
        invariant
            i <= n,
            n == a@.len(),
            n == b@.len(),
            forall|k: int| 0 <= k < i ==> a@[k] == b@[k],
        decreases n - i,
    {
        if a.get_char(i) != b.get_char(i) {
            return false;
        }
        i = i + 1;
    }
    proof {
        assert(a@ =~= b@);
    }
    true
}

/// A loaded device module: the table of entry points a JIT build exported,
/// in discovery order. Resolving a name yields a handle that a kernel node
/// captures.
pub struct Module {
    kernels: Vec<String>,
}

/// First index bearing the given name.
pub open spec fn name_index(names: Seq<Seq<char>>, name: Seq<char>) -> Option<int>
    decreases names.len(),
{
    if names.len() == 0 {
        Option::None
    } else if names[0] == name {
        Option::Some(0)
    } else {
        match name_index(names.drop_first(), name) {
            Option::Some(j) => Option::Some(j + 1),
            Option::None => Option::None,
        }
    }
}

/// A scan computes `name_index`.
proof fn lemma_name_index_at(names: Seq<Seq<char>>, name: Seq<char>, j: int)
    requires
        0 <= j < names.len(),
        forall|k: int| 0 <= k < j ==> #[trigger] names[k] != name,
        names[j] == name,
    ensures
        name_index(names, name) == Option::Some(j),
    decreases names.len(),
{
    if j > 0 {
        assert forall|k: int| 0 <= k < j - 1 implies #[trigger] names.drop_first()[k] != name by {
            assert(names.drop_first()[k] == names[k + 1]);
        }
        lemma_name_index_at(names.drop_first(), name, j - 1);
    }
}

/// A scan that saw no carrier computes `name_index`.
proof fn lemma_name_index_none(names: Seq<Seq<char>>, name: Seq<char>)
    requires
        forall|k: int| 0 <= k < names.len() ==> #[trigger] names[k] != name,
    ensures
        name_index(names, name) is None,
    decreases names.len(),
{
    if names.len() > 0 {
        assert forall|k: int|
            0 <= k < names.drop_first().len() implies #[trigger] names.drop_first()[k] != name by {
            assert(names.drop_first()[k] == names[k + 1]);
        }
        lemma_name_index_none(names.drop_first(), name);
    }
}

impl Module {
    /// The exported kernel names, in discovery order.
    pub closed spec fn names(self) -> Seq<Seq<char>> {
        Seq::new(self.kernels@.len(), |i: int| self.kernels@[i]@)
    }

    /// Load a compiled image: the module exports the given entry points.
    pub fn load(kernels: Vec<String>) -> (r: Module)
        ensures
            r.names() =~= Seq::new(kernels@.len(), |i: int| kernels@[i]@),
    {
        Module { kernels }
    }

    /// Resolve a kernel by name to its function handle: the index of the
    /// first export bearing the name. An unknown name is reported as such.
    pub fn get_function(&self, name: &str) -> (r: Result<usize, Error>)
        ensures
            match r {
                Result::Ok(h) => name_index(self.names(), name@) == Option::Some(h as int),
                Result::Err(e) => name_index(self.names(), name@) is None && match e {
                    Error::SymbolNotFound(n) => n@ == name@,
                    _ => false,
                },
            },
    {
        let n = self.kernels.len();
        let mut j: usize = 0;
        while j < n
            invariant
                j <= n,
                n == self.kernels@.len(),
                forall|k: int| 0 <= k < j ==> #[trigger] self.names()[k] != name@,
            decreases n - j,
        {
            if str_eq(self.kernels[j].as_str(), name) {
                proof {
                    lemma_name_index_at(self.names(), name@, j as int);
                }
                return Result::Ok(j);
            }
            j = j + 1;
        }
        proof {
            lemma_name_index_none(self.names(), name@);
        }
        Result::Err(Error::SymbolNotFound(String::from_str(name)))
    }
}

} // verus!
